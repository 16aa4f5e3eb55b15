//! A registry that tracks a fleet of identified devices ("nodes") for a
//! bird's-eye fleet-status dashboard: each node gets a deterministic grid
//! position, a set of classification tags, and an operational state, and the
//! registry maintains aggregate statistics over tag membership and state.
//!
//! Nodes are kept sorted by id, so the grid layout is a pure function of the
//! current id set and the geometry configuration, independent of the order in
//! which nodes were registered.

use vstd::prelude::*;

pub mod machine_state;
pub mod str_order;

use crate::machine_state::MachineState;
use crate::machine_state::spec_lookup_by_id;
use crate::machine_state::spec_lookup_by_name;
use crate::machine_state::canonical_states;
use crate::machine_state::lookup_by_id;
use crate::machine_state::lookup_by_name;
use crate::str_order::seq_char_lt;
use crate::str_order::str_cmp;
use crate::str_order::str_eq;
use crate::str_order::StrOrder;
use crate::str_order::lemma_seq_char_lt_asymmetric;
use crate::str_order::lemma_seq_char_lt_transitive;
use crate::str_order::lemma_seq_char_lt_irreflexive;
use crate::str_order::lemma_sorted_distinct_same_set;

verus! {

/// One tracked node: its stable id, its classification tags, and its
/// operational state. The state defaults to `UNKNOWN` at creation.
pub struct NodeData {
    rpi_serial: String,
    cls: Vec<String>,
    machine_state: MachineState,
}

impl NodeData {
    /// The node's id.
    pub closed spec fn key(self) -> Seq<char> {
        self.rpi_serial@
    }

    /// The node's tags in representation order.
    pub closed spec fn tag_seq(self) -> Seq<Seq<char>> {
        self.cls.deep_view()
    }

    /// The node's tags.
    pub open spec fn tag_set(self) -> Set<Seq<char>> {
        self.tag_seq().to_set()
    }

    /// The node's operational state.
    pub closed spec fn state(self) -> MachineState {
        self.machine_state
    }

    /// Tags are stored without duplicates.
    pub closed spec fn wf(self) -> bool {
        self.tag_seq().no_duplicates()
    }

    fn new(rpi_serial: &str) -> (r: NodeData)
        ensures
            r.key() == rpi_serial@,
            r.tag_set() =~= Set::<Seq<char>>::empty(),
            r.state() == MachineState::UNKNOWN,
            r.wf(),
    {
        let r = NodeData {
            rpi_serial: rpi_serial.to_owned(),
            cls: Vec::new(),
            machine_state: MachineState::UNKNOWN,
        };
        proof {
            assert(r.tag_seq() =~= Seq::<Seq<char>>::empty());
        }
        r
    }
}

/// Aggregate tag statistics: for each pre-declared bucket name, the set of
/// node ids currently carrying that tag.
pub struct BirdsEyeViewStats {
    data: Vec<(String, Vec<String>)>,
}

impl BirdsEyeViewStats {
    /// The declared bucket names, in declaration order.
    pub closed spec fn names(self) -> Seq<Seq<char>> {
        self.data@.map_values(|e: (String, Vec<String>)| e.0@)
    }

    /// Whether statistics are tracked for this tag name.
    pub open spec fn is_bucket(self, name: Seq<char>) -> bool {
        self.names().contains(name)
    }

    /// The position of a bucket in the declaration order.
    pub closed spec fn bucket_index(self, name: Seq<char>) -> int {
        choose|i: int| 0 <= i < self.data@.len() && self.data@[i].0@ == name
    }

    /// The member ids stored for the bucket at position `i`.
    pub closed spec fn members_seq_at(self, i: int) -> Seq<Seq<char>> {
        self.data@[i].1.deep_view()
    }

    /// The ids currently in a bucket; empty for a tag that is not tracked.
    pub open spec fn members_of(self, name: Seq<char>) -> Set<Seq<char>> {
        if self.is_bucket(name) {
            self.members_seq_at(self.bucket_index(name)).to_set()
        } else {
            Set::<Seq<char>>::empty()
        }
    }

    /// Bucket names are unique and each member list is duplicate-free.
    pub closed spec fn wf(self) -> bool {
        &&& forall|i: int, j: int|
            0 <= i < j < self.data@.len() ==> self.data@[i].0@ != self.data@[j].0@
        &&& forall|k: int|
            0 <= k < self.data@.len() ==> (#[trigger] self.data@[k].1.deep_view()).no_duplicates()
    }

    /// Records that a known node carries a tag: if the tag is a tracked
    /// bucket, the id joins that bucket's member set; otherwise nothing
    /// changes.
    fn add_member(&mut self, name: &str, id: &str)
        requires
            old(self).wf(),
        ensures
            final(self).wf(),
            final(self).names() == old(self).names(),
            forall|t: Seq<char>|
                t != name@ ==> final(self).members_of(t) == old(self).members_of(t),
            old(self).is_bucket(name@) ==> final(self).members_of(name@) =~= old(
                self,
            ).members_of(name@).insert(id@),
            !old(self).is_bucket(name@) ==> final(self).members_of(name@) == old(
                self,
            ).members_of(name@),
    {
        let n: usize = self.data.len();
        let mut out: Vec<(String, Vec<String>)> = Vec::new();
        let mut k: usize = 0;
        while k < n
            invariant
                *self == *old(self),
                old(self).wf(),
                0 <= k <= n,
                n == self.data@.len(),
                out@.len() == k,
                forall|j: int| 0 <= j < k ==> (#[trigger] out@[j]).0 == self.data@[j].0,
                forall|j: int|
                    0 <= j < k && self.data@[j].0@ != name@ ==> (#[trigger] out@[j]).1.deep_view()
                        == self.data@[j].1.deep_view(),
                forall|j: int|
                    0 <= j < k && self.data@[j].0@ == name@
                        ==> (#[trigger] out@[j]).1.deep_view().to_set()
                        =~= self.data@[j].1.deep_view().to_set().insert(id@),
                forall|j: int|
                    0 <= j < k ==> (#[trigger] out@[j]).1.deep_view().no_duplicates(),
            decreases n - k,
        {
            let bucket_name: String = self.data[k].0.clone();
            let mut members: Vec<String> = clone_strings(&self.data[k].1);
            let ghost orig = self.data@[k as int].1.deep_view();
            if str_eq(bucket_name.as_str(), name) {
                if !contains_str(&members, id) {
                    members.push(id.to_owned());
                    proof {
                        assert(members.deep_view() =~= orig.push(id@));
                        assert forall|x: Seq<char>| #[trigger] members.deep_view().to_set().contains(
                            x,
                        ) <==> orig.to_set().insert(id@).contains(x) by {
                            lemma_push_contains(orig, id@, x);
                        }
                        assert(members.deep_view().to_set() =~= orig.to_set().insert(id@));
                        assert forall|p: int, q: int|
                            0 <= p < q < members.deep_view().len() implies members.deep_view()[p]
                            != members.deep_view()[q] by {
                            if q == members.deep_view().len() - 1 {
                                assert(orig.contains(orig[p]));
                            } else {
                                assert(members.deep_view()[p] == orig[p]);
                                assert(members.deep_view()[q] == orig[q]);
                            }
                        }
                    }
                } else {
                    proof {
                        assert(members.deep_view().to_set() =~= orig.to_set().insert(id@));
                    }
                }
            }
            out.push((bucket_name, members));
            k = k + 1;
        }
        self.data = out;
        proof {
            assert forall|i: int, j: int|
                0 <= i < j < self.data@.len() implies self.data@[i].0@ != self.data@[j].0@ by {
                assert(self.data@[i].0 == old(self).data@[i].0);
                assert(self.data@[j].0 == old(self).data@[j].0);
            }
            lemma_bucket_index_is_position(*self);
            lemma_bucket_index_is_position(*old(self));
            assert(self.names() =~= old(self).names());
            assert forall|t: Seq<char>|
                t != name@ implies self.members_of(t) == old(self).members_of(t) by {
                if old(self).is_bucket(t) {
                    let w = choose|w: int|
                        0 <= w < old(self).names().len() && old(self).names()[w] == t;
                    assert(old(self).data@[w].0@ == t);
                    assert(old(self).members_of(t) == old(self).members_seq_at(w).to_set());
                    assert(self.members_of(t) == self.members_seq_at(w).to_set());
                    assert(self.data@[w].1.deep_view() == old(self).data@[w].1.deep_view());
                } else {
                    assert(!self.is_bucket(t));
                }
            }
            if old(self).is_bucket(name@) {
                let w = choose|w: int|
                    0 <= w < old(self).names().len() && old(self).names()[w] == name@;
                assert(old(self).data@[w].0@ == name@);
                assert(old(self).members_of(name@) == old(self).members_seq_at(w).to_set());
                assert(self.members_of(name@) == self.members_seq_at(w).to_set());
            } else {
                assert(!self.is_bucket(name@));
            }
        }
    }

    /// Removes an id from every bucket's member set.
    fn remove_member_everywhere(&mut self, id: &str)
        requires
            old(self).wf(),
        ensures
            final(self).wf(),
            final(self).names() == old(self).names(),
            forall|t: Seq<char>|
                final(self).members_of(t) =~= old(self).members_of(t).remove(id@),
    {
        let n: usize = self.data.len();
        let mut out: Vec<(String, Vec<String>)> = Vec::new();
        let mut k: usize = 0;
        while k < n
            invariant
                *self == *old(self),
                old(self).wf(),
                0 <= k <= n,
                n == self.data@.len(),
                out@.len() == k,
                forall|j: int| 0 <= j < k ==> (#[trigger] out@[j]).0 == self.data@[j].0,
                forall|j: int, x: Seq<char>|
                    0 <= j < k ==> (#[trigger] out@[j].1.deep_view().contains(x)
                        <==> self.data@[j].1.deep_view().contains(x) && x != id@),
                forall|j: int|
                    0 <= j < k ==> (#[trigger] out@[j]).1.deep_view().no_duplicates(),
            decreases n - k,
        {
            let bucket_name: String = self.data[k].0.clone();
            let members: Vec<String> = members_without(&self.data[k].1, id);
            out.push((bucket_name, members));
            k = k + 1;
        }
        self.data = out;
        proof {
            assert forall|i: int, j: int|
                0 <= i < j < self.data@.len() implies self.data@[i].0@ != self.data@[j].0@ by {
                assert(self.data@[i].0 == old(self).data@[i].0);
                assert(self.data@[j].0 == old(self).data@[j].0);
            }
            lemma_bucket_index_is_position(*self);
            lemma_bucket_index_is_position(*old(self));
            assert(self.names() =~= old(self).names());
            assert forall|t: Seq<char>|
                self.members_of(t) =~= old(self).members_of(t).remove(id@) by {
                if old(self).is_bucket(t) {
                    let w = choose|w: int|
                        0 <= w < old(self).names().len() && old(self).names()[w] == t;
                    assert(old(self).data@[w].0@ == t);
                    assert(old(self).members_of(t) == old(self).members_seq_at(w).to_set());
                    assert(self.members_of(t) == self.members_seq_at(w).to_set());
                } else {
                    assert(!self.is_bucket(t));
                }
            }
        }
    }

    /// The table's raw contents: each bucket's name with its member ids.
    pub fn entries(&self) -> (r: &Vec<(String, Vec<String>)>)
        requires
            self.wf(),
        ensures
            r@.len() == self.names().len(),
            forall|i: int|
                0 <= i < r@.len() ==> (#[trigger] r@[i]).0@ == self.names()[i]
                    && r@[i].1.deep_view().to_set() == self.members_of(self.names()[i]),
    {
        proof {
            lemma_bucket_index_is_position(*self);
        }
        &self.data
    }

    /// Builds a statistics table from a list of buckets and their members.
    pub fn new(data: Vec<(String, Vec<String>)>) -> (r: BirdsEyeViewStats)
        requires
            forall|i: int, j: int| 0 <= i < j < data@.len() ==> data@[i].0@ != data@[j].0@,
            forall|k: int|
                0 <= k < data@.len() ==> (#[trigger] data@[k].1.deep_view()).no_duplicates(),
        ensures
            r.wf(),
            r.names() == data@.map_values(|e: (String, Vec<String>)| e.0@),
            forall|i: int|
                0 <= i < data@.len() ==> r.members_of(#[trigger] data@[i].0@)
                    == data@[i].1.deep_view().to_set(),
    {
        let r = BirdsEyeViewStats { data };
        proof {
            lemma_bucket_index_is_position(r);
        }
        r
    }
}

/// Appending to a string sequence adds exactly that string to its contents.
proof fn lemma_push_contains(s: Seq<Seq<char>>, a: Seq<char>, v: Seq<char>)
    ensures
        s.push(a).contains(v) <==> s.contains(v) || v == a,
{
    if s.push(a).contains(v) {
        let w = choose|w: int| 0 <= w < s.push(a).len() && s.push(a)[w] == v;
        if w < s.len() {
            assert(s[w] == v);
        }
    }
    if s.contains(v) {
        let w = choose|w: int| 0 <= w < s.len() && s[w] == v;
        assert(s.push(a)[w] == v);
    }
    if v == a {
        assert(s.push(a)[s.len() as int] == v);
    }
}

/// Whether the list holds a string with these characters.
fn contains_str(v: &Vec<String>, s: &str) -> (r: bool)
    ensures
        r == v.deep_view().contains(s@),
{
    let n: usize = v.len();
    let mut k: usize = 0;
    while k < n
        invariant
            0 <= k <= n,
            n == v@.len(),
            forall|j: int| 0 <= j < k ==> v.deep_view()[j] != s@,
        decreases n - k,
    {
        if str_eq(v[k].as_str(), s) {
            proof {
                assert(v.deep_view()[k as int] == s@);
            }
            return true;
        }
        k = k + 1;
    }
    proof {
        assert forall|j: int| 0 <= j < v.deep_view().len() implies v.deep_view()[j] != s@ by {}
    }
    false
}

/// A copy of the list, character for character.
fn clone_strings(v: &Vec<String>) -> (out: Vec<String>)
    ensures
        out@ == v@,
        out.deep_view() == v.deep_view(),
{
    let n: usize = v.len();
    let mut out: Vec<String> = Vec::new();
    let mut k: usize = 0;
    while k < n
        invariant
            0 <= k <= n,
            n == v@.len(),
            out@.len() == k,
            forall|j: int| 0 <= j < k ==> out@[j] == v@[j],
        decreases n - k,
    {
        out.push(v[k].clone());
        k = k + 1;
    }
    proof {
        assert(out@ =~= v@);
        assert(out.deep_view() =~= v.deep_view());
    }
    out
}

/// A copy of the list without any occurrence of `id`.
fn members_without(v: &Vec<String>, id: &str) -> (out: Vec<String>)
    ensures
        out.deep_view().no_duplicates() || !v.deep_view().no_duplicates(),
        forall|x: Seq<char>|
            #[trigger] out.deep_view().contains(x) <==> v.deep_view().contains(x) && x != id@,
{
    let n: usize = v.len();
    let mut out: Vec<String> = Vec::new();
    let mut k: usize = 0;
    while k < n
        invariant
            0 <= k <= n,
            n == v@.len(),
            forall|x: Seq<char>|
                #[trigger] out.deep_view().contains(x) <==> v.deep_view().take(k as int).contains(
                    x,
                ) && x != id@,
            v.deep_view().no_duplicates() ==> out.deep_view().no_duplicates(),
        decreases n - k,
    {
        let ghost prev_out = out.deep_view();
        let ghost prefix = v.deep_view().take(k as int);
        let keep: bool = !str_eq(v[k].as_str(), id);
        if keep {
            out.push(v[k].clone());
        }
        k = k + 1;
        proof {
            let cur = v.deep_view()[k - 1];
            let new_prefix = v.deep_view().take(k as int);
            assert(new_prefix =~= prefix.push(cur));
            if keep {
                assert(out.deep_view() =~= prev_out.push(cur));
                assert forall|x: Seq<char>| #[trigger] out.deep_view().contains(x) <==> (
                new_prefix.contains(x) && x != id@) by {
                    lemma_push_contains(prev_out, cur, x);
                    lemma_push_contains(prefix, cur, x);
                }
                if v.deep_view().no_duplicates() {
                    assert forall|p: int, q: int|
                        0 <= p < q < out.deep_view().len() implies out.deep_view()[p]
                        != out.deep_view()[q] by {
                        if q == out.deep_view().len() - 1 {
                            assert(out.deep_view()[q] == cur);
                            assert(prev_out.contains(prev_out[p]));
                            assert(prefix.contains(out.deep_view()[p]));
                            let w = choose|w: int| 0 <= w < prefix.len() && prefix[w]
                                == out.deep_view()[p];
                            assert(v.deep_view()[w] == prefix[w]);
                        } else {
                            assert(out.deep_view()[p] == prev_out[p]);
                            assert(out.deep_view()[q] == prev_out[q]);
                        }
                    }
                }
            } else {
                assert(cur == id@);
                assert forall|x: Seq<char>| #[trigger] out.deep_view().contains(x) <==> (
                new_prefix.contains(x) && x != id@) by {
                    lemma_push_contains(prefix, cur, x);
                }
            }
        }
    }
    proof {
        assert(v.deep_view().take(n as int) =~= v.deep_view());
    }
    out
}

/// With unique bucket names, each name's bucket index is its position.
proof fn lemma_bucket_index_is_position(s: BirdsEyeViewStats)
    requires
        forall|i: int, j: int| 0 <= i < j < s.data@.len() ==> s.data@[i].0@ != s.data@[j].0@,
    ensures
        forall|i: int|
            0 <= i < s.data@.len() ==> {
                &&& s.is_bucket(#[trigger] s.data@[i].0@)
                &&& s.bucket_index(s.data@[i].0@) == i
                &&& s.members_of(s.data@[i].0@) == s.members_seq_at(i).to_set()
            },
{
    assert forall|i: int| 0 <= i < s.data@.len() implies {
        &&& s.is_bucket(#[trigger] s.data@[i].0@)
        &&& s.bucket_index(s.data@[i].0@) == i
        &&& s.members_of(s.data@[i].0@) == s.members_seq_at(i).to_set()
    } by {
        assert(s.names()[i] == s.data@[i].0@);
        assert(s.is_bucket(s.data@[i].0@));
        let k = s.bucket_index(s.data@[i].0@);
        assert(0 <= k < s.data@.len() && s.data@[k].0@ == s.data@[i].0@) by {
            assert(0 <= i < s.data@.len() && s.data@[i].0@ == s.data@[i].0@);
        }
        if k < i {
            assert(s.data@[k].0@ != s.data@[i].0@);
        } else if k > i {
            assert(s.data@[i].0@ != s.data@[k].0@);
        }
    }
}

/// Rows needed for `count` items at `per_row` items per row: the ceiling of
/// the quotient, and 0 when there are no items.
pub open spec fn spec_rows(count: int, per_row: int) -> int
    recommends
        per_row >= 1,
{
    if count % per_row == 0 {
        count / per_row
    } else {
        count / per_row + 1
    }
}

/// Pixel extent of `n` grid cells of size `dim`, each wrapped in `margin` on
/// both sides, with `padding` added at both outer edges.
pub open spec fn spec_span(n: int, margin: int, dim: int, padding: int) -> int {
    padding + n * (margin + dim + margin) + padding
}

/// The row count never exceeds the item count, and is positive exactly when
/// there are items.
proof fn lemma_rows_bounds(count: int, per_row: int)
    requires
        count >= 0,
        per_row >= 1,
    ensures
        0 <= spec_rows(count, per_row) <= count,
        count > 0 ==> spec_rows(count, per_row) >= 1,
{
    vstd::arithmetic::div_mod::lemma_fundamental_div_mod(count, per_row);
    vstd::arithmetic::div_mod::lemma_mod_bound(count, per_row);
    let q = count / per_row;
    let r = count % per_row;
    assert(q >= 0) by (nonlinear_arith)
        requires
            count == per_row * q + r,
            0 <= r < per_row,
            count >= 0,
            per_row >= 1,
    ;
    if r == 0 {
        assert(q <= count && (count > 0 ==> q >= 1)) by (nonlinear_arith)
            requires
                count == per_row * q,
                per_row >= 1,
                q >= 0,
        ;
    } else {
        assert(q + 1 <= count) by (nonlinear_arith)
            requires
                count == per_row * q + r,
                r >= 1,
                per_row >= 1,
                q >= 0,
        ;
    }
}

/// In a strictly sorted node list, no id occurs at two positions.
proof fn lemma_sorted_index_unique(s: Seq<NodeData>, i: int, k: int)
    requires
        forall|p: int, q: int|
            0 <= p < q < s.len() ==> seq_char_lt(#[trigger] s[p].key(), #[trigger] s[q].key()),
        0 <= i < s.len(),
        0 <= k < s.len(),
        s[i].key() == s[k].key(),
    ensures
        i == k,
{
    if i < k {
        assert(seq_char_lt(s[i].key(), s[k].key()));
        lemma_seq_char_lt_irreflexive(s[i].key());
    } else if k < i {
        assert(seq_char_lt(s[k].key(), s[i].key()));
        lemma_seq_char_lt_irreflexive(s[i].key());
    }
}

/// How many nodes in the list hold the given state.
spec fn count_state_in(s: Seq<NodeData>, st: MachineState) -> int
    decreases s.len(),
{
    if s.len() == 0 {
        0
    } else {
        count_state_in(s.drop_last(), st) + if s.last().state() == st {
            1int
        } else {
            0int
        }
    }
}

/// How many nodes in the list hold a named (non-`UNKNOWN`) state.
spec fn count_known_in(s: Seq<NodeData>) -> int
    decreases s.len(),
{
    if s.len() == 0 {
        0
    } else {
        count_known_in(s.drop_last()) + if s.last().state() != MachineState::UNKNOWN {
            1int
        } else {
            0int
        }
    }
}

/// Each node with a named state is counted by exactly one of the seven
/// per-state counts, so those counts sum to the named-state node count.
proof fn lemma_counts_partition_seq(s: Seq<NodeData>)
    ensures
        count_state_in(s, MachineState::NOT_SWITCHED_ON) + count_state_in(s, MachineState::WARMUP)
            + count_state_in(s, MachineState::PROGRAM_INTERRUPTION) + count_state_in(
            s,
            MachineState::PRODUCTION_LT_100,
        ) + count_state_in(s, MachineState::PRODUCTION_100) + count_state_in(
            s,
            MachineState::NOT_RUNNING_WO_ERROR,
        ) + count_state_in(s, MachineState::NOT_RUNNING_W_ERROR) == count_known_in(s),
        count_known_in(s) >= 0,
        forall|st: MachineState| #[trigger] count_state_in(s, st) >= 0,
    decreases s.len(),
{
    if s.len() > 0 {
        lemma_counts_partition_seq(s.drop_last());
        assert forall|st: MachineState| #[trigger] count_state_in(s, st) >= 0 by {
            assert(count_state_in(s.drop_last(), st) >= 0);
        }
    } else {
        assert forall|st: MachineState| #[trigger] count_state_in(s, st) >= 0 by {
            assert(count_state_in(s, st) == 0);
        }
    }
}

/// A slot's row and column lie inside the grid that the row count spans.
proof fn lemma_slot_bounds(i: int, count: int, per_row: int)
    requires
        0 <= i < count,
        per_row >= 1,
    ensures
        0 <= i % per_row < per_row,
        0 <= i / per_row < spec_rows(count, per_row),
{
    vstd::arithmetic::div_mod::lemma_fundamental_div_mod(i, per_row);
    vstd::arithmetic::div_mod::lemma_mod_bound(i, per_row);
    vstd::arithmetic::div_mod::lemma_fundamental_div_mod(count, per_row);
    vstd::arithmetic::div_mod::lemma_mod_bound(count, per_row);
    let qi = i / per_row;
    let ri = i % per_row;
    let qc = count / per_row;
    let rc = count % per_row;
    assert(qi >= 0) by (nonlinear_arith)
        requires
            i == per_row * qi + ri,
            0 <= ri < per_row,
            i >= 0,
            per_row >= 1,
    ;
    if rc == 0 {
        assert(qi < qc) by (nonlinear_arith)
            requires
                i == per_row * qi + ri,
                count == per_row * qc,
                0 <= ri < per_row,
                i < count,
                per_row >= 1,
        ;
    } else {
        assert(qi <= qc) by (nonlinear_arith)
            requires
                i == per_row * qi + ri,
                count == per_row * qc + rc,
                0 <= ri < per_row,
                0 <= rc < per_row,
                i < count,
                per_row >= 1,
        ;
    }
}

/// One positioned node of the layout: its pixel position and the node's id,
/// tags, and state name.
pub struct BirdsEyeViewNode {
    pub x: u32,
    pub y: u32,
    pub cls: Vec<String>,
    pub rpi_serial: String,
    pub machine_state: String,
}

impl BirdsEyeViewNode {
    /// Overwrites the node's pixel position.
    pub fn set_coordinates(&mut self, x: u32, y: u32)
        ensures
            final(self).x == x,
            final(self).y == y,
            final(self).cls == old(self).cls,
            final(self).rpi_serial == old(self).rpi_serial,
            final(self).machine_state == old(self).machine_state,
    {
        self.x = x;
        self.y = y;
    }
}

/// `spec_rows` is the ceiling of `count / per_row`: its rows cover every
/// item, one row fewer would not, and an empty registry needs no row.
pub proof fn lemma_rows_is_ceiling(count: int, per_row: int)
    requires
        count >= 0,
        per_row >= 1,
    ensures
        spec_rows(count, per_row) * per_row >= count,
        count > 0 ==> (spec_rows(count, per_row) - 1) * per_row < count,
        count == 0 ==> spec_rows(count, per_row) == 0,
{
    vstd::arithmetic::div_mod::lemma_fundamental_div_mod(count, per_row);
    vstd::arithmetic::div_mod::lemma_mod_bound(count, per_row);
    lemma_rows_bounds(count, per_row);
    let q = count / per_row;
    let r = count % per_row;
    if r == 0 {
        assert(spec_rows(count, per_row) * per_row >= count && (count > 0 ==> (spec_rows(
            count,
            per_row,
        ) - 1) * per_row < count)) by (nonlinear_arith)
            requires
                count == per_row * q + r,
                r == 0,
                per_row >= 1,
                q >= 0,
                spec_rows(count, per_row) == q,
        ;
    } else {
        assert(spec_rows(count, per_row) * per_row >= count && (spec_rows(count, per_row) - 1)
            * per_row < count) by (nonlinear_arith)
            requires
                count == per_row * q + r,
                0 < r < per_row,
                per_row >= 1,
                q >= 0,
                spec_rows(count, per_row) == q + 1,
        ;
    }
}

/// The registry: the node collection, the grid-geometry configuration, and
/// the derived geometry values, kept consistent with the node count.
pub struct BirdsEyeView {
    rows: u32,
    width: u32,
    height: u32,
    items_per_row: u32,
    items_dimension: u32,
    items_margin: u32,
    padding: u32,
    data: Vec<NodeData>,
    stats: BirdsEyeViewStats,
}

impl BirdsEyeView {
    /// How many nodes are registered.
    pub closed spec fn node_count(self) -> int {
        self.data@.len() as int
    }

    /// The configured number of items per row.
    pub closed spec fn ipr(self) -> int {
        self.items_per_row as int
    }

    /// The configured cell margin.
    pub closed spec fn margin(self) -> int {
        self.items_margin as int
    }

    /// The configured cell dimension.
    pub closed spec fn dim(self) -> int {
        self.items_dimension as int
    }

    /// The configured outer padding.
    pub closed spec fn pad(self) -> int {
        self.padding as int
    }

    /// The registered ids, in sorted order.
    pub closed spec fn ids(self) -> Seq<Seq<char>> {
        self.data@.map_values(|n: NodeData| n.key())
    }

    /// The id at position `i` of the sorted order.
    pub open spec fn id_at(self, i: int) -> Seq<char> {
        self.ids()[i]
    }

    /// Whether a node with this id is registered.
    pub open spec fn has_node(self, id: Seq<char>) -> bool {
        self.ids().contains(id)
    }

    /// The position of a registered id in the sorted order.
    pub closed spec fn index_of(self, id: Seq<char>) -> int {
        choose|i: int| 0 <= i < self.data@.len() && self.data@[i].key() == id
    }

    /// The tags of a node; empty for an unregistered id.
    pub closed spec fn tags_of(self, id: Seq<char>) -> Set<Seq<char>> {
        if self.has_node(id) {
            self.data@[self.index_of(id)].tag_set()
        } else {
            Set::<Seq<char>>::empty()
        }
    }

    /// The state of a node; `UNKNOWN` for an unregistered id.
    pub closed spec fn state_of(self, id: Seq<char>) -> MachineState {
        if self.has_node(id) {
            self.data@[self.index_of(id)].state()
        } else {
            MachineState::UNKNOWN
        }
    }

    /// The statistics table.
    pub closed spec fn stats_view(self) -> BirdsEyeViewStats {
        self.stats
    }

    /// Whether statistics are tracked for this tag name.
    pub open spec fn is_bucket(self, name: Seq<char>) -> bool {
        self.stats_view().is_bucket(name)
    }

    /// The ids currently in a statistics bucket.
    pub open spec fn bucket_members(self, name: Seq<char>) -> Set<Seq<char>> {
        self.stats_view().members_of(name)
    }

    /// The registry's invariant: nodes strictly sorted by id (hence ids are
    /// unique), every node and the statistics table well formed, bucket
    /// membership exactly mirroring tag attachment on registered nodes, and
    /// the derived geometry consistent with the node count and configuration.
    pub closed spec fn wf(self) -> bool {
        &&& self.items_per_row >= 1
        &&& self.items_dimension >= 1
        &&& self.data@.len() <= u32::MAX
        &&& forall|i: int, j: int|
            0 <= i < j < self.data@.len() ==> seq_char_lt(
                self.data@[i].key(),
                self.data@[j].key(),
            )
        &&& forall|i: int| 0 <= i < self.data@.len() ==> (#[trigger] self.data@[i]).wf()
        &&& self.stats.wf()
        &&& forall|t: Seq<char>, id: Seq<char>|
            #[trigger] self.stats.members_of(t).contains(id) <==> self.stats.is_bucket(t)
                && self.has_node(id) && self.tags_of(id).contains(t)
        &&& self.rows as int == spec_rows(self.node_count(), self.ipr())
        &&& self.width as int == spec_span(self.ipr(), self.margin(), self.dim(), self.pad())
        &&& self.height as int == spec_span(
            self.rows as int,
            self.margin(),
            self.dim(),
            self.pad(),
        )
    }

    /// A fresh registry: no nodes, 25 items per row, cell size 20, margin 5,
    /// padding 5, and the two tracked tag buckets, both empty.
    pub fn new() -> (v: BirdsEyeView)
        ensures
            v.wf(),
            v.node_count() == 0,
            forall|id: Seq<char>| !v.has_node(id),
            v.ipr() == 25,
            v.dim() == 20,
            v.margin() == 5,
            v.pad() == 5,
            v.is_bucket("macon_short_uptime"@),
            v.is_bucket("no_identity"@),
            forall|t: Seq<char>| v.bucket_members(t) =~= Set::<Seq<char>>::empty(),
            forall|t: Seq<char>| v.is_bucket(t) <==> (t == "macon_short_uptime"@ || t
                == "no_identity"@),
    {
        let mut buckets: Vec<(String, Vec<String>)> = Vec::new();
        let uptime_name: String = "macon_short_uptime".to_owned();
        let identity_name: String = "no_identity".to_owned();
        proof {
            reveal_strlit("macon_short_uptime");
            reveal_strlit("no_identity");
            assert("macon_short_uptime"@.len() == 18);
            assert("no_identity"@.len() == 11);
        }
        buckets.push((uptime_name, Vec::new()));
        buckets.push((identity_name, Vec::new()));
        assert(buckets@[0].0@ != buckets@[1].0@);
        assert(forall|k: int|
            0 <= k < buckets@.len() ==> (#[trigger] buckets@[k].1.deep_view()).no_duplicates())
            by {
            assert(buckets@[0].1.deep_view() =~= Seq::<Seq<char>>::empty());
            assert(buckets@[1].1.deep_view() =~= Seq::<Seq<char>>::empty());
        }
        let stats = BirdsEyeViewStats::new(buckets);
        let items_per_row: u32 = 25;
        let padding: u32 = 5;
        let items_dimension: u32 = 20;
        let items_margin: u32 = 5;
        let width: u32 = padding + items_per_row * (items_margin + items_dimension + items_margin)
            + padding;
        let rows: u32 = 0;
        let height: u32 = padding + rows * (items_margin + items_dimension + items_margin)
            + padding;
        let v = BirdsEyeView {
            rows,
            width,
            height,
            items_per_row,
            items_dimension,
            items_margin,
            padding,
            data: Vec::new(),
            stats,
        };
        proof {
            assert(v.ids() =~= Seq::<Seq<char>>::empty());
            let name_view = buckets@.map_values(|e: (String, Vec<String>)| e.0@);
            assert(name_view[0] == "macon_short_uptime"@);
            assert(name_view[1] == "no_identity"@);
            assert forall|t: Seq<char>| v.is_bucket(t) implies (t == "macon_short_uptime"@ || t
                == "no_identity"@) by {
                let w = choose|i: int| 0 <= i < name_view.len() && name_view[i] == t;
                assert(name_view[w] == t);
            }
            assert forall|t: Seq<char>| v.bucket_members(t) =~= Set::<Seq<char>>::empty() by {
                if v.stats.is_bucket(t) {
                    let w = choose|i: int| 0 <= i < name_view.len() && name_view[i] == t;
                    assert(buckets@[w].0@ == t);
                    assert(v.stats.members_of(buckets@[w].0@) == buckets@[w].1.deep_view().to_set());
                    assert(buckets@[w].1.deep_view() =~= Seq::<Seq<char>>::empty());
                    assert(buckets@[w].1.deep_view().to_set() =~= Set::<Seq<char>>::empty());
                }
            }
        }
        v
    }

    /// Total pixel width of the grid.
    pub fn width(&self) -> (r: u32)
        requires
            self.wf(),
        ensures
            r as int == spec_span(self.ipr(), self.margin(), self.dim(), self.pad()),
    {
        self.width
    }

    /// Total pixel height of the grid.
    pub fn height(&self) -> (r: u32)
        requires
            self.wf(),
        ensures
            r as int == spec_span(
                spec_rows(self.node_count(), self.ipr()),
                self.margin(),
                self.dim(),
                self.pad(),
            ),
    {
        self.height
    }

    /// The configured number of items per row.
    pub fn items_per_row(&self) -> (r: u32)
        ensures
            r as int == self.ipr(),
    {
        self.items_per_row
    }

    /// The configured cell dimension.
    pub fn items_dimension(&self) -> (r: u32)
        ensures
            r as int == self.dim(),
    {
        self.items_dimension
    }

    /// The configured cell margin.
    pub fn items_margin(&self) -> (r: u32)
        ensures
            r as int == self.margin(),
    {
        self.items_margin
    }

    /// The configured outer padding.
    pub fn padding(&self) -> (r: u32)
        ensures
            r as int == self.pad(),
    {
        self.padding
    }

    /// The current row count, always the ceiling of node count over items
    /// per row, and 0 for an empty registry.
    pub fn rows(&self) -> (r: u32)
        requires
            self.wf(),
        ensures
            r as int == spec_rows(self.node_count(), self.ipr()),
    {
        self.rows
    }

    /// How many nodes are registered.
    pub fn items(&self) -> (r: usize)
        ensures
            r as int == self.node_count(),
    {
        self.data.len()
    }

    /// The current tag-bucket statistics, as an immutable view.
    pub fn stats(&self) -> (r: &BirdsEyeViewStats)
        ensures
            *r == self.stats_view(),
            self.wf() ==> r.wf(),
    {
        &self.stats
    }

    /// A registered id's position under `index_of` is valid and holds it.
    proof fn lemma_index_of_valid(self, id: Seq<char>)
        requires
            self.has_node(id),
        ensures
            0 <= self.index_of(id) < self.node_count(),
            self.data@[self.index_of(id)].key() == id,
    {
        let w = choose|i: int| 0 <= i < self.ids().len() && self.ids()[i] == id;
        assert(self.ids()[w] == id);
        assert(self.data@[w].key() == id);
        assert(0 <= w < self.data@.len() && self.data@[w].key() == id);
    }

    /// In a sorted registry the id stored at position `i` is registered,
    /// occurs only there, and its tags and state are the ones stored there.
    proof fn lemma_key_at_index(self, i: int)
        requires
            self.wf(),
            0 <= i < self.node_count(),
        ensures
            self.has_node(self.data@[i].key()),
            self.index_of(self.data@[i].key()) == i,
            self.tags_of(self.data@[i].key()) == self.data@[i].tag_set(),
            self.state_of(self.data@[i].key()) == self.data@[i].state(),
    {
        let id = self.data@[i].key();
        assert(self.ids()[i] == id);
        assert(self.has_node(id));
        self.lemma_index_of_valid(id);
        let k = self.index_of(id);
        if k < i {
            assert(seq_char_lt(self.data@[k].key(), self.data@[i].key()));
            lemma_seq_char_lt_irreflexive(id);
        } else if k > i {
            assert(seq_char_lt(self.data@[i].key(), self.data@[k].key()));
            lemma_seq_char_lt_irreflexive(id);
        }
    }

    /// Finds the position an id has, or would get, in the sorted order.
    fn locate(&self, rpi_serial: &str) -> (r: (usize, bool))
        requires
            self.wf(),
        ensures
            r.0 <= self.node_count(),
            r.1 == self.has_node(rpi_serial@),
            r.1 ==> r.0 < self.node_count() && self.data@[r.0 as int].key() == rpi_serial@,
            !r.1 ==> forall|j: int|
                0 <= j < r.0 ==> seq_char_lt(#[trigger] self.data@[j].key(), rpi_serial@),
            !r.1 ==> forall|j: int|
                r.0 <= j < self.node_count() ==> seq_char_lt(
                    rpi_serial@,
                    #[trigger] self.data@[j].key(),
                ),
    {
        let n: usize = self.data.len();
        let mut i: usize = 0;
        loop
            invariant
                0 <= i <= n,
                n == self.data@.len(),
                self.wf(),
                forall|j: int|
                    0 <= j < i ==> seq_char_lt(#[trigger] self.data@[j].key(), rpi_serial@),
            decreases n - i,
        {
            if i == n {
                proof {
                    self.lemma_not_contained(rpi_serial@, i as int);
                }
                return (i, false);
            }
            match str_cmp(self.data[i].rpi_serial.as_str(), rpi_serial) {
                StrOrder::Less => {
                    i = i + 1;
                },
                StrOrder::Equal => {
                    proof {
                        assert(self.ids()[i as int] == rpi_serial@);
                    }
                    return (i, true);
                },
                StrOrder::Greater => {
                    proof {
                        assert forall|j: int|
                            i <= j < self.data@.len() implies seq_char_lt(
                            rpi_serial@,
                            #[trigger] self.data@[j].key(),
                        ) by {
                            if j > i {
                                lemma_seq_char_lt_transitive(
                                    rpi_serial@,
                                    self.data@[i as int].key(),
                                    self.data@[j].key(),
                                );
                            }
                        }
                        self.lemma_not_contained(rpi_serial@, i as int);
                    }
                    return (i, false);
                },
            }
        }
    }

    /// An id smaller than one part of the registry and larger than the rest
    /// is not registered.
    proof fn lemma_not_contained(self, id: Seq<char>, pos: int)
        requires
            0 <= pos <= self.node_count(),
            forall|j: int| 0 <= j < pos ==> seq_char_lt(#[trigger] self.data@[j].key(), id),
            forall|j: int|
                pos <= j < self.node_count() ==> seq_char_lt(id, #[trigger] self.data@[j].key()),
        ensures
            !self.has_node(id),
    {
        assert forall|j: int| 0 <= j < self.ids().len() implies self.ids()[j] != id by {
            assert(self.ids()[j] == self.data@[j].key());
            if j < pos {
                lemma_seq_char_lt_asymmetric(self.data@[j].key(), id);
            } else {
                lemma_seq_char_lt_asymmetric(id, self.data@[j].key());
            }
        }
    }

    /// Registers a new node with empty tags and state `UNKNOWN`; a no-op
    /// answered with `false` if the id is already present. On success the
    /// row count and total height are recomputed for the new node count.
    pub fn register(&mut self, rpi_serial: &str) -> (r: bool)
        requires
            old(self).wf(),
            old(self).node_count() + 1 <= u32::MAX,
            spec_span(
                spec_rows(old(self).node_count() + 1, old(self).ipr()),
                old(self).margin(),
                old(self).dim(),
                old(self).pad(),
            ) <= u32::MAX,
        ensures
            final(self).wf(),
            r == !old(self).has_node(rpi_serial@),
            !r ==> *final(self) == *old(self),
            r ==> final(self).node_count() == old(self).node_count() + 1,
            r ==> final(self).has_node(rpi_serial@),
            r ==> final(self).tags_of(rpi_serial@) =~= Set::<Seq<char>>::empty(),
            r ==> final(self).state_of(rpi_serial@) == MachineState::UNKNOWN,
            forall|id: Seq<char>|
                id != rpi_serial@ ==> final(self).has_node(id) == old(self).has_node(id),
            forall|id: Seq<char>|
                id != rpi_serial@ ==> final(self).tags_of(id) == old(self).tags_of(id)
                    && final(self).state_of(id) == old(self).state_of(id),
            final(self).stats_view() == old(self).stats_view(),
            final(self).ipr() == old(self).ipr(),
            final(self).margin() == old(self).margin(),
            final(self).dim() == old(self).dim(),
            final(self).pad() == old(self).pad(),
    {
        let (pos, found) = self.locate(rpi_serial);
        if found {
            return false;
        }
        let node = NodeData::new(rpi_serial);
        self.data.insert(pos, node);
        proof {
            old(self).data@.insert_ensures(pos as int, node);
        }
        let cnt: usize = self.data.len();
        let cnt_u: u32 = cnt as u32;
        proof {
            lemma_rows_bounds(cnt as int, self.items_per_row as int);
        }
        let mut rows: u32 = cnt_u / self.items_per_row;
        if cnt_u % self.items_per_row > 0 {
            rows = rows + 1;
        }
        assert(rows as int == spec_rows(cnt as int, self.ipr()));
        proof {
            vstd::arithmetic::mul::lemma_mul_increases(
                self.ipr(),
                self.margin() + self.dim() + self.margin(),
            );
            vstd::arithmetic::mul::lemma_mul_increases(
                rows as int + 1,
                self.margin() + self.dim() + self.margin(),
            );
            if rows > 0 {
                vstd::arithmetic::mul::lemma_mul_inequality(
                    1,
                    rows as int,
                    self.margin() + self.dim() + self.margin(),
                );
            }
        }
        let span_unit: u32 = self.items_margin + self.items_dimension + self.items_margin;
        let height: u32 = self.padding + rows * span_unit + self.padding;
        self.rows = rows;
        self.height = height;
        proof {
            self.lemma_after_insert(*old(self), rpi_serial@, pos as int);
        }
        true
    }

    /// After inserting a fresh node at its sorted position and recomputing
    /// the derived geometry, the registry is well formed again and every
    /// other node is unchanged.
    proof fn lemma_after_insert(self, prev: BirdsEyeView, id: Seq<char>, pos: int)
        requires
            prev.wf(),
            prev.data@.len() + 1 <= u32::MAX,
            0 <= pos <= prev.node_count(),
            forall|j: int| 0 <= j < pos ==> seq_char_lt(#[trigger] prev.data@[j].key(), id),
            forall|j: int|
                pos <= j < prev.node_count() ==> seq_char_lt(id, #[trigger] prev.data@[j].key()),
            self.data@.len() == prev.data@.len() + 1,
            self.data@[pos].key() == id,
            self.data@[pos].tag_set() =~= Set::<Seq<char>>::empty(),
            self.data@[pos].state() == MachineState::UNKNOWN,
            self.data@[pos].wf(),
            forall|j: int| 0 <= j < pos ==> self.data@[j] == #[trigger] prev.data@[j],
            forall|j: int|
                pos <= j < prev.data@.len() ==> self.data@[j + 1] == #[trigger] prev.data@[j],
            self.stats == prev.stats,
            self.items_per_row == prev.items_per_row,
            self.items_dimension == prev.items_dimension,
            self.items_margin == prev.items_margin,
            self.padding == prev.padding,
            self.rows as int == spec_rows(self.node_count(), self.ipr()),
            self.width == prev.width,
            self.height as int == spec_span(self.rows as int, self.margin(), self.dim(), self.pad()),
        ensures
            self.wf(),
            self.has_node(id),
            self.tags_of(id) =~= Set::<Seq<char>>::empty(),
            self.state_of(id) == MachineState::UNKNOWN,
            forall|x: Seq<char>| x != id ==> self.has_node(x) == prev.has_node(x),
            forall|x: Seq<char>|
                x != id ==> self.tags_of(x) == prev.tags_of(x) && self.state_of(x) == prev.state_of(
                    x,
                ),
    {
        let n = self.data@.len() as int;
        // sortedness of the extended node list
        assert forall|i: int, j: int|
            0 <= i < j < n implies seq_char_lt(self.data@[i].key(), self.data@[j].key()) by {
            if i < pos && j < pos {
                assert(prev.data@[i] == self.data@[i] && prev.data@[j] == self.data@[j]);
            } else if i < pos && j == pos {
                assert(self.data@[i] == prev.data@[i]);
            } else if i < pos && j > pos {
                assert(self.data@[i] == prev.data@[i] && self.data@[j] == prev.data@[j - 1]);
                lemma_seq_char_lt_transitive(
                    prev.data@[i].key(),
                    id,
                    prev.data@[j - 1].key(),
                );
            } else if i == pos && j > pos {
                assert(self.data@[j] == prev.data@[j - 1]);
            } else {
                assert(self.data@[i] == prev.data@[i - 1] && self.data@[j] == prev.data@[j - 1]);
            }
        }
        // every node well formed
        assert forall|i: int| 0 <= i < n implies (#[trigger] self.data@[i]).wf() by {
            if i < pos {
                assert(self.data@[i] == prev.data@[i]);
            } else if i > pos {
                assert(self.data@[i] == prev.data@[i - 1]);
            }
        }
        // the new id is present, with empty tags and unknown state
        assert(self.ids()[pos] == id);
        assert(self.has_node(id));
        prev.lemma_not_contained(id, pos);
        self.lemma_index_of_valid(id);
        lemma_sorted_index_unique(self.data@, self.index_of(id), pos);
        // old ids map to shifted positions with unchanged content
        assert forall|x: Seq<char>| x != id implies self.has_node(x) == prev.has_node(x) by {
            if prev.has_node(x) {
                prev.lemma_index_of_valid(x);
                let k = prev.index_of(x);
                if k < pos {
                    assert(self.ids()[k] == x);
                } else {
                    assert(self.data@[k + 1] == prev.data@[k]);
                    assert(self.ids()[k + 1] == x);
                }
                assert(self.has_node(x));
            } else if self.has_node(x) {
                self.lemma_index_of_valid(x);
                let k = self.index_of(x);
                if k < pos {
                    assert(prev.ids()[k] == x);
                } else {
                    assert(k != pos);
                    assert(self.data@[k] == prev.data@[k - 1]);
                    assert(prev.ids()[k - 1] == x);
                }
                assert(prev.has_node(x));
            }
        }
        assert forall|x: Seq<char>|
            x != id implies self.tags_of(x) == prev.tags_of(x) && self.state_of(x)
            == prev.state_of(x) by {
            if prev.has_node(x) {
                prev.lemma_index_of_valid(x);
                let k = prev.index_of(x);
                let k2: int = if k < pos {
                    k
                } else {
                    k + 1
                };
                assert(self.data@[k2] == prev.data@[k]);
                assert(self.ids()[k2] == x);
                self.lemma_index_of_valid(x);
                lemma_sorted_index_unique(self.data@, self.index_of(x), k2);
            }
        }
        // bucket membership still mirrors tag attachment
        assert forall|t: Seq<char>, x: Seq<char>|
            #[trigger] self.stats.members_of(t).contains(x) <==> self.stats.is_bucket(t)
                && self.has_node(x) && self.tags_of(x).contains(t) by {
            if x == id {
                assert(!prev.has_node(id));
                assert(!prev.stats.members_of(t).contains(id));
                assert(!self.tags_of(id).contains(t));
            }
        }
    }

    /// Replacing the node at one position by a node with the same id keeps
    /// the sorted order and leaves every other node's view unchanged.
    proof fn lemma_node_replaced(self, prev: BirdsEyeView, pos: int)
        requires
            prev.wf(),
            0 <= pos < prev.data@.len(),
            self.data@.len() == prev.data@.len(),
            forall|j: int|
                0 <= j < prev.data@.len() && j != pos ==> self.data@[j] == #[trigger] prev.data@[j],
            self.data@[pos].key() == prev.data@[pos].key(),
            self.data@[pos].wf(),
        ensures
            forall|i: int, j: int|
                0 <= i < j < self.data@.len() ==> seq_char_lt(
                    #[trigger] self.data@[i].key(),
                    #[trigger] self.data@[j].key(),
                ),
            forall|i: int| 0 <= i < self.data@.len() ==> (#[trigger] self.data@[i]).wf(),
            self.ids() == prev.ids(),
            forall|x: Seq<char>| self.has_node(x) == prev.has_node(x),
            forall|x: Seq<char>|
                x != prev.data@[pos].key() ==> self.tags_of(x) == prev.tags_of(x)
                    && self.state_of(x) == prev.state_of(x),
            self.has_node(prev.data@[pos].key()),
            self.index_of(prev.data@[pos].key()) == pos,
            self.tags_of(prev.data@[pos].key()) == self.data@[pos].tag_set(),
            self.state_of(prev.data@[pos].key()) == self.data@[pos].state(),
    {
        let kp = prev.data@[pos].key();
        assert forall|j: int|
            0 <= j < self.data@.len() implies self.data@[j].key() == prev.data@[j].key() by {
            if j != pos {
                assert(self.data@[j] == prev.data@[j]);
            }
        }
        assert(self.ids() =~= prev.ids());
        assert forall|i: int, j: int|
            0 <= i < j < self.data@.len() implies seq_char_lt(
            #[trigger] self.data@[i].key(),
            #[trigger] self.data@[j].key(),
        ) by {
            assert(seq_char_lt(prev.data@[i].key(), prev.data@[j].key()));
        }
        assert forall|i: int| 0 <= i < self.data@.len() implies (#[trigger] self.data@[i]).wf() by {
            if i != pos {
                assert(self.data@[i] == prev.data@[i]);
            }
        }
        assert(self.ids()[pos] == kp);
        assert(self.has_node(kp));
        self.lemma_index_of_valid(kp);
        lemma_sorted_index_unique(self.data@, self.index_of(kp), pos);
        assert forall|x: Seq<char>|
            x != kp implies self.tags_of(x) == prev.tags_of(x) && self.state_of(x)
            == prev.state_of(x) by {
            if prev.has_node(x) {
                prev.lemma_index_of_valid(x);
                let k = prev.index_of(x);
                assert(k != pos);
                assert(self.data@[k] == prev.data@[k]);
                assert(self.ids()[k] == x);
                self.lemma_index_of_valid(x);
                lemma_sorted_index_unique(self.data@, self.index_of(x), k);
            }
        }
    }

    /// Two registries with the same node list and statistics agree on every
    /// node observation and every bucket.
    proof fn lemma_same_nodes(self, prev: BirdsEyeView)
        requires
            prev.wf(),
            self.data == prev.data,
        ensures
            self.ids() == prev.ids(),
            forall|x: Seq<char>| self.has_node(x) == prev.has_node(x),
            forall|x: Seq<char>| self.tags_of(x) == prev.tags_of(x),
            forall|x: Seq<char>| self.state_of(x) == prev.state_of(x),
    {
        assert(self.data@ == prev.data@);
        assert(self.ids() =~= prev.ids());
        assert forall|x: Seq<char>|
            self.tags_of(x) == prev.tags_of(x) && self.state_of(x) == prev.state_of(x) by {
            if prev.has_node(x) {
                prev.lemma_index_of_valid(x);
                let k = prev.index_of(x);
                assert(self.ids()[k] == x);
                self.lemma_index_of_valid(x);
                lemma_sorted_index_unique(self.data@, self.index_of(x), k);
            }
        }
    }

    /// Takes the node at `pos` out, applies no change to any other position,
    /// and puts `node` back in its place.
    fn replace_node_at(&mut self, pos: usize, node: NodeData)
        requires
            pos < old(self).data@.len(),
        ensures
            final(self).data@.len() == old(self).data@.len(),
            forall|j: int|
                0 <= j < old(self).data@.len() && j != pos ==> final(self).data@[j]
                    == #[trigger] old(self).data@[j],
            final(self).data@[pos as int] == node,
            final(self).stats == old(self).stats,
            final(self).rows == old(self).rows,
            final(self).width == old(self).width,
            final(self).height == old(self).height,
            final(self).items_per_row == old(self).items_per_row,
            final(self).items_dimension == old(self).items_dimension,
            final(self).items_margin == old(self).items_margin,
            final(self).padding == old(self).padding,
    {
        let ghost before = self.data@;
        let _removed = self.data.remove(pos);
        proof {
            before.remove_ensures(pos as int);
        }
        let ghost mid = self.data@;
        self.data.insert(pos, node);
        proof {
            mid.insert_ensures(pos as int, node);
            assert forall|j: int|
                0 <= j < before.len() && j != pos implies self.data@[j] == #[trigger] before[j] by {
                if j < pos {
                    assert(self.data@[j] == mid[j]);
                    assert(mid[j] == before[j]);
                } else {
                    assert(self.data@[j] == mid[j - 1]);
                    assert(mid[j - 1] == before[j]);
                }
            }
        }
    }

    /// Empties the tag set of a node and retires its id from every
    /// statistics bucket; a silent no-op if the id is unknown.
    pub fn clear_cls(&mut self, rpi_serial: &str)
        requires
            old(self).wf(),
        ensures
            final(self).wf(),
            !old(self).has_node(rpi_serial@) ==> *final(self) == *old(self),
            old(self).has_node(rpi_serial@) ==> final(self).tags_of(rpi_serial@)
                =~= Set::<Seq<char>>::empty(),
            forall|x: Seq<char>| final(self).has_node(x) == old(self).has_node(x),
            forall|x: Seq<char>| x != rpi_serial@ ==> final(self).tags_of(x) == old(self).tags_of(x),
            forall|x: Seq<char>| final(self).state_of(x) == old(self).state_of(x),
            old(self).has_node(rpi_serial@) ==> forall|t: Seq<char>|
                final(self).bucket_members(t) =~= old(self).bucket_members(t).remove(rpi_serial@),
            forall|t: Seq<char>| final(self).is_bucket(t) == old(self).is_bucket(t),
            final(self).node_count() == old(self).node_count(),
            final(self).ipr() == old(self).ipr(),
            final(self).margin() == old(self).margin(),
            final(self).dim() == old(self).dim(),
            final(self).pad() == old(self).pad(),
    {
        let (pos, found) = self.locate(rpi_serial);
        if !found {
            return;
        }
        let serial_copy: String = self.data[pos].rpi_serial.clone();
        let state_copy: MachineState = self.data[pos].machine_state;
        let node = NodeData { rpi_serial: serial_copy, cls: Vec::new(), machine_state: state_copy };
        proof {
            assert(node.tag_seq() =~= Seq::<Seq<char>>::empty());
            assert(node.tag_set() =~= Set::<Seq<char>>::empty());
        }
        self.replace_node_at(pos, node);
        self.stats.remove_member_everywhere(rpi_serial);
        proof {
            old(self).lemma_key_at_index(pos as int);
            self.lemma_node_replaced(*old(self), pos as int);
            assert forall|t: Seq<char>, x: Seq<char>|
                #[trigger] self.stats.members_of(t).contains(x) <==> self.stats.is_bucket(t)
                    && self.has_node(x) && self.tags_of(x).contains(t) by {
                assert(self.stats.members_of(t) =~= old(self).stats.members_of(t).remove(
                    rpi_serial@,
                ));
                assert(self.stats.is_bucket(t) == old(self).stats.is_bucket(t));
                if x != rpi_serial@ {
                    assert(self.stats.members_of(t).contains(x) == old(
                        self,
                    ).stats.members_of(t).contains(x));
                } else {
                    assert(!self.stats.members_of(t).contains(x));
                    assert(!self.tags_of(rpi_serial@).contains(t));
                }
            }
        }
    }

    /// Adds a tag to a known node's tag set (idempotently) and, if the tag
    /// is a tracked bucket, records the id in that bucket. Answers `false`
    /// with no change if the id is unknown.
    pub fn add_cls(&mut self, rpi_serial: &str, cls: &str) -> (r: bool)
        requires
            old(self).wf(),
        ensures
            final(self).wf(),
            r == old(self).has_node(rpi_serial@),
            !r ==> *final(self) == *old(self),
            r ==> final(self).tags_of(rpi_serial@) =~= old(self).tags_of(rpi_serial@).insert(cls@),
            forall|x: Seq<char>| final(self).has_node(x) == old(self).has_node(x),
            forall|x: Seq<char>| x != rpi_serial@ ==> final(self).tags_of(x) == old(self).tags_of(x),
            forall|x: Seq<char>| final(self).state_of(x) == old(self).state_of(x),
            forall|t: Seq<char>| final(self).is_bucket(t) == old(self).is_bucket(t),
            forall|t: Seq<char>|
                t != cls@ ==> final(self).bucket_members(t) == old(self).bucket_members(t),
            r && old(self).is_bucket(cls@) ==> final(self).bucket_members(cls@) =~= old(
                self,
            ).bucket_members(cls@).insert(rpi_serial@),
            !(r && old(self).is_bucket(cls@)) ==> final(self).bucket_members(cls@) == old(
                self,
            ).bucket_members(cls@),
            final(self).node_count() == old(self).node_count(),
            final(self).ipr() == old(self).ipr(),
            final(self).margin() == old(self).margin(),
            final(self).dim() == old(self).dim(),
            final(self).pad() == old(self).pad(),
    {
        let (pos, found) = self.locate(rpi_serial);
        if !found {
            return false;
        }
        let serial_copy: String = self.data[pos].rpi_serial.clone();
        let state_copy: MachineState = self.data[pos].machine_state;
        let mut members: Vec<String> = clone_strings(&self.data[pos].cls);
        let ghost orig = old(self).data@[pos as int].tag_seq();
        if !contains_str(&members, cls) {
            members.push(cls.to_owned());
            proof {
                assert(members.deep_view() =~= orig.push(cls@));
                assert forall|x: Seq<char>| #[trigger] members.deep_view().to_set().contains(x)
                    <==> orig.to_set().insert(cls@).contains(x) by {
                    lemma_push_contains(orig, cls@, x);
                }
                assert(members.deep_view().to_set() =~= orig.to_set().insert(cls@));
                assert forall|p: int, q: int|
                    0 <= p < q < members.deep_view().len() implies members.deep_view()[p]
                    != members.deep_view()[q] by {
                    if q == members.deep_view().len() - 1 {
                        assert(orig.contains(orig[p]));
                    } else {
                        assert(members.deep_view()[p] == orig[p]);
                        assert(members.deep_view()[q] == orig[q]);
                    }
                }
            }
        } else {
            proof {
                assert(members.deep_view().to_set() =~= orig.to_set().insert(cls@));
            }
        }
        let node = NodeData { rpi_serial: serial_copy, cls: members, machine_state: state_copy };
        self.replace_node_at(pos, node);
        self.stats.add_member(cls, rpi_serial);
        proof {
            old(self).lemma_key_at_index(pos as int);
            self.lemma_node_replaced(*old(self), pos as int);
            assert(self.tags_of(rpi_serial@) =~= old(self).tags_of(rpi_serial@).insert(cls@));
            assert forall|t: Seq<char>, x: Seq<char>|
                #[trigger] self.stats.members_of(t).contains(x) <==> self.stats.is_bucket(t)
                    && self.has_node(x) && self.tags_of(x).contains(t) by {
                assert(self.stats.is_bucket(t) == old(self).stats.is_bucket(t));
                if t == cls@ && old(self).stats.is_bucket(cls@) {
                    assert(self.stats.members_of(t) =~= old(self).stats.members_of(t).insert(
                        rpi_serial@,
                    ));
                } else {
                    assert(self.stats.members_of(t) == old(self).stats.members_of(t));
                }
                if x == rpi_serial@ {
                    assert(self.tags_of(x) =~= old(self).tags_of(x).insert(cls@));
                } else {
                    assert(self.tags_of(x) == old(self).tags_of(x));
                }
            }
        }
        true
    }

    /// Whether a `set_machine_state` call with this id and name causes a
    /// change: the id must be known, the name must resolve to a named state,
    /// and that state must differ from the node's current one.
    pub open spec fn set_state_effective(self, id: Seq<char>, name: Seq<char>) -> bool {
        &&& self.has_node(id)
        &&& spec_lookup_by_name(name) != MachineState::UNKNOWN
        &&& self.state_of(id) != spec_lookup_by_name(name)
    }

    /// Stores the state a name resolves to on a known node. Answers `false`
    /// with no change if the id is unknown, the name is unrecognized, or the
    /// node already holds that state; `true` exactly when a change happened.
    pub fn set_machine_state(&mut self, rpi_serial: &str, state_value: &str) -> (r: bool)
        requires
            old(self).wf(),
        ensures
            final(self).wf(),
            r == old(self).set_state_effective(rpi_serial@, state_value@),
            !r ==> *final(self) == *old(self),
            r ==> final(self).state_of(rpi_serial@) == spec_lookup_by_name(state_value@),
            forall|x: Seq<char>| final(self).has_node(x) == old(self).has_node(x),
            forall|x: Seq<char>| final(self).tags_of(x) == old(self).tags_of(x),
            forall|x: Seq<char>|
                x != rpi_serial@ ==> final(self).state_of(x) == old(self).state_of(x),
            final(self).stats_view() == old(self).stats_view(),
            final(self).node_count() == old(self).node_count(),
            final(self).ipr() == old(self).ipr(),
            final(self).margin() == old(self).margin(),
            final(self).dim() == old(self).dim(),
            final(self).pad() == old(self).pad(),
    {
        let (pos, found) = self.locate(rpi_serial);
        if !found {
            return false;
        }
        let st: MachineState = lookup_by_name(state_value);
        if st == MachineState::UNKNOWN {
            return false;
        }
        proof {
            old(self).lemma_key_at_index(pos as int);
        }
        if self.data[pos].machine_state == st {
            return false;
        }
        let serial_copy: String = self.data[pos].rpi_serial.clone();
        let members: Vec<String> = clone_strings(&self.data[pos].cls);
        let node = NodeData { rpi_serial: serial_copy, cls: members, machine_state: st };
        proof {
            assert(node.tag_seq() == old(self).data@[pos as int].tag_seq());
        }
        self.replace_node_at(pos, node);
        proof {
            self.lemma_node_replaced(*old(self), pos as int);
            assert forall|t: Seq<char>, x: Seq<char>|
                #[trigger] self.stats.members_of(t).contains(x) <==> self.stats.is_bucket(t)
                    && self.has_node(x) && self.tags_of(x).contains(t) by {
                assert(self.stats == old(self).stats);
                if x == rpi_serial@ {
                    assert(self.tags_of(x) == old(self).tags_of(x));
                }
            }
        }
        true
    }

    /// Updates the layout width parameter and recomputes the derived
    /// geometry for the new configuration.
    pub fn change_items_per_row(&mut self, ipr: u32)
        requires
            old(self).wf(),
            ipr >= 1,
            spec_span(ipr as int, old(self).margin(), old(self).dim(), old(self).pad())
                <= u32::MAX,
            spec_span(
                spec_rows(old(self).node_count(), ipr as int),
                old(self).margin(),
                old(self).dim(),
                old(self).pad(),
            ) <= u32::MAX,
        ensures
            final(self).wf(),
            final(self).ipr() == ipr as int,
            forall|x: Seq<char>| final(self).has_node(x) == old(self).has_node(x),
            forall|x: Seq<char>| final(self).tags_of(x) == old(self).tags_of(x),
            forall|x: Seq<char>| final(self).state_of(x) == old(self).state_of(x),
            final(self).stats_view() == old(self).stats_view(),
            final(self).node_count() == old(self).node_count(),
            final(self).margin() == old(self).margin(),
            final(self).dim() == old(self).dim(),
            final(self).pad() == old(self).pad(),
    {
        self.items_per_row = ipr;
        let cnt: usize = self.data.len();
        let cnt_u: u32 = cnt as u32;
        proof {
            lemma_rows_bounds(cnt as int, ipr as int);
        }
        let mut rows: u32 = cnt_u / ipr;
        if cnt_u % ipr > 0 {
            rows = rows + 1;
        }
        assert(rows as int == spec_rows(cnt as int, ipr as int));
        proof {
            vstd::arithmetic::mul::lemma_mul_increases(
                ipr as int,
                self.margin() + self.dim() + self.margin(),
            );
            if rows > 0 {
                vstd::arithmetic::mul::lemma_mul_inequality(
                    1,
                    rows as int,
                    self.margin() + self.dim() + self.margin(),
                );
            }
        }
        let span_unit: u32 = self.items_margin + self.items_dimension + self.items_margin;
        let width: u32 = self.padding + ipr * span_unit + self.padding;
        let height: u32 = self.padding + rows * span_unit + self.padding;
        self.rows = rows;
        self.width = width;
        self.height = height;
        proof {
            self.lemma_same_nodes(*old(self));
            assert forall|t: Seq<char>, x: Seq<char>|
                #[trigger] self.stats.members_of(t).contains(x) <==> self.stats.is_bucket(t)
                    && self.has_node(x) && self.tags_of(x).contains(t) by {
                assert(self.stats == old(self).stats);
            }
        }
    }

    /// How many registered nodes hold the given state.
    pub closed spec fn state_count(self, st: MachineState) -> int {
        count_state_in(self.data@, st)
    }

    /// How many registered nodes hold a named (non-`UNKNOWN`) state.
    pub closed spec fn known_count(self) -> int {
        count_known_in(self.data@)
    }

    /// Counts the nodes currently holding the given state.
    fn count_state(&self, st: MachineState) -> (n: usize)
        ensures
            n == self.state_count(st),
            n <= self.data@.len(),
    {
        let len: usize = self.data.len();
        let mut n: usize = 0;
        let mut i: usize = 0;
        while i < len
            invariant
                0 <= i <= len,
                len == self.data@.len(),
                n == count_state_in(self.data@.take(i as int), st),
                n <= i,
            decreases len - i,
        {
            proof {
                assert(self.data@.take(i + 1).drop_last() =~= self.data@.take(i as int));
                assert(self.data@.take(i + 1).last() == self.data@[i as int]);
            }
            if self.data[i].machine_state == st {
                n = n + 1;
            }
            i = i + 1;
        }
        proof {
            assert(self.data@.take(len as int) =~= self.data@);
        }
        n
    }

    /// Counts nodes per named state, in the catalog's canonical order, with
    /// explicit zero counts; nodes in state `UNKNOWN` are not counted.
    pub fn machine_state_stats(&self) -> (r: Vec<(String, i32)>)
        requires
            self.node_count() <= i32::MAX as int,
        ensures
            r@.len() == canonical_states().len(),
            forall|i: int|
                0 <= i < r@.len() ==> (#[trigger] r@[i]).0@ == spec_lookup_by_id(
                    canonical_states()[i],
                ) && r@[i].1 as int == self.state_count(canonical_states()[i]),
    {
        let states: Vec<MachineState> = crate::machine_state::ordered_states();
        let mut r: Vec<(String, i32)> = Vec::new();
        let mut k: usize = 0;
        while k < states.len()
            invariant
                0 <= k <= states@.len(),
                states@ == canonical_states(),
                self.node_count() <= i32::MAX as int,
                r@.len() == k,
                forall|i: int|
                    0 <= i < k ==> (#[trigger] r@[i]).0@ == spec_lookup_by_id(canonical_states()[i])
                        && r@[i].1 as int == self.state_count(canonical_states()[i]),
            decreases states@.len() - k,
        {
            let st: MachineState = states[k];
            let cnt: usize = self.count_state(st);
            proof {
                lemma_counts_partition_seq(self.data@);
            }
            let name: String = lookup_by_id(st).to_owned();
            r.push((name, cnt as i32));
            k = k + 1;
        }
        r
    }

    /// The layout: the registered nodes in lexicographic id order, each with
    /// its tags, its state name, and its grid pixel position. Because the
    /// order is recomputed from the id set alone, two calls without a
    /// mutation in between return the same sequence.
    pub fn nodes(&self) -> (r: Vec<BirdsEyeViewNode>)
        requires
            self.wf(),
        ensures
            r@.len() == self.node_count(),
            forall|i: int|
                0 <= i < r@.len() ==> {
                    &&& (#[trigger] r@[i]).rpi_serial@ == self.id_at(i)
                    &&& r@[i].cls.deep_view().to_set() == self.tags_of(self.id_at(i))
                    &&& r@[i].machine_state@ == spec_lookup_by_id(self.state_of(self.id_at(i)))
                    &&& r@[i].x as int == self.pad() + self.margin() + (i % self.ipr()) * (
                    self.margin() + self.dim() + self.margin())
                    &&& r@[i].y as int == self.pad() + self.margin() + (i / self.ipr()) * (
                    self.margin() + self.dim() + self.margin())
                },
    {
        let n: usize = self.data.len();
        let mut out: Vec<BirdsEyeViewNode> = Vec::new();
        let mut i: usize = 0;
        while i < n
            invariant
                self.wf(),
                0 <= i <= n,
                n == self.data@.len(),
                out@.len() == i,
                forall|j: int|
                    0 <= j < i ==> {
                        &&& (#[trigger] out@[j]).rpi_serial@ == self.id_at(j)
                        &&& out@[j].cls.deep_view().to_set() == self.tags_of(self.id_at(j))
                        &&& out@[j].machine_state@ == spec_lookup_by_id(
                            self.state_of(self.id_at(j)),
                        )
                        &&& out@[j].x as int == self.pad() + self.margin() + (j % self.ipr()) * (
                        self.margin() + self.dim() + self.margin())
                        &&& out@[j].y as int == self.pad() + self.margin() + (j / self.ipr()) * (
                        self.margin() + self.dim() + self.margin())
                    },
            decreases n - i,
        {
            let idx: u32 = i as u32;
            let row: u32 = idx / self.items_per_row;
            let col: u32 = idx % self.items_per_row;
            proof {
                lemma_slot_bounds(i as int, n as int, self.ipr());
                let unit_s = self.margin() + self.dim() + self.margin();
                vstd::arithmetic::mul::lemma_mul_increases(self.ipr(), unit_s);
                assert(self.pad() + self.margin() + (i as int % self.ipr()) * unit_s <= spec_span(
                    self.ipr(),
                    self.margin(),
                    self.dim(),
                    self.pad(),
                )) by (nonlinear_arith)
                    requires
                        0 <= i as int % self.ipr() < self.ipr(),
                        unit_s >= self.margin() >= 0,
                        self.pad() >= 0,
                        spec_span(self.ipr(), self.margin(), self.dim(), self.pad()) == self.pad()
                            + self.ipr() * unit_s + self.pad(),
                ;
                let rows_s = spec_rows(self.node_count(), self.ipr());
                assert(self.pad() + self.margin() + (i as int / self.ipr()) * unit_s <= spec_span(
                    rows_s,
                    self.margin(),
                    self.dim(),
                    self.pad(),
                )) by (nonlinear_arith)
                    requires
                        0 <= i as int / self.ipr() < rows_s,
                        unit_s >= self.margin() >= 0,
                        self.pad() >= 0,
                        spec_span(rows_s, self.margin(), self.dim(), self.pad()) == self.pad()
                            + rows_s * unit_s + self.pad(),
                ;
            }
            let unit: u32 = self.items_margin + self.items_dimension + self.items_margin;
            let x: u32 = self.padding + self.items_margin + col * unit;
            let y: u32 = self.padding + self.items_margin + row * unit;
            let node = BirdsEyeViewNode {
                x,
                y,
                cls: clone_strings(&self.data[i].cls),
                rpi_serial: self.data[i].rpi_serial.clone(),
                machine_state: lookup_by_id(self.data[i].machine_state).to_owned(),
            };
            out.push(node);
            proof {
                self.lemma_key_at_index(i as int);
                assert(self.ids()[i as int] == self.data@[i as int].key());
            }
            i = i + 1;
        }
        out
    }

    /// The ids of a well-formed registry appear in strictly increasing
    /// order, so no id is ever stored twice.
    pub proof fn lemma_ids_unique(self)
        requires
            self.wf(),
        ensures
            forall|i: int, j: int|
                0 <= i < j < self.node_count() ==> seq_char_lt(
                    #[trigger] self.id_at(i),
                    #[trigger] self.id_at(j),
                ),
            forall|i: int, j: int|
                0 <= i < j < self.node_count() ==> #[trigger] self.id_at(i) != #[trigger] self.id_at(
                    j,
                ),
    {
        assert forall|i: int, j: int|
            0 <= i < j < self.node_count() implies seq_char_lt(
            #[trigger] self.id_at(i),
            #[trigger] self.id_at(j),
        ) && self.id_at(i) != self.id_at(j) by {
            assert(self.ids()[i] == self.data@[i].key());
            assert(self.ids()[j] == self.data@[j].key());
            lemma_seq_char_lt_asymmetric(self.data@[i].key(), self.data@[j].key());
        }
    }

    /// The layout is a pure function of the current id set, the per-id
    /// observations, and the geometry configuration: two well-formed
    /// registries that agree on those agree position by position on the
    /// whole sorted layout order, however their nodes were registered.
    pub proof fn lemma_layout_pure(self, other: BirdsEyeView)
        requires
            self.wf(),
            other.wf(),
            forall|id: Seq<char>| self.has_node(id) == other.has_node(id),
            forall|id: Seq<char>|
                #[trigger] self.has_node(id) ==> self.tags_of(id) == other.tags_of(id)
                    && self.state_of(id) == other.state_of(id),
            self.ipr() == other.ipr(),
            self.margin() == other.margin(),
            self.dim() == other.dim(),
            self.pad() == other.pad(),
        ensures
            self.node_count() == other.node_count(),
            forall|i: int|
                0 <= i < self.node_count() ==> #[trigger] self.id_at(i) == other.id_at(i)
                    && self.tags_of(self.id_at(i)) == other.tags_of(other.id_at(i))
                    && self.state_of(self.id_at(i)) == other.state_of(other.id_at(i)),
    {
        assert forall|i: int, j: int|
            0 <= i < j < self.ids().len() implies seq_char_lt(
            #[trigger] self.ids()[i],
            #[trigger] self.ids()[j],
        ) by {
            assert(self.ids()[i] == self.data@[i].key());
            assert(self.ids()[j] == self.data@[j].key());
        }
        assert forall|i: int, j: int|
            0 <= i < j < other.ids().len() implies seq_char_lt(
            #[trigger] other.ids()[i],
            #[trigger] other.ids()[j],
        ) by {
            assert(other.ids()[i] == other.data@[i].key());
            assert(other.ids()[j] == other.data@[j].key());
        }
        assert forall|v: Seq<char>|
            #![trigger self.ids().contains(v)]
            #![trigger other.ids().contains(v)]
            self.ids().contains(v) <==> other.ids().contains(v) by {
            assert(self.has_node(v) == other.has_node(v));
        }
        lemma_sorted_distinct_same_set(self.ids(), other.ids());
        assert forall|i: int|
            0 <= i < self.node_count() implies #[trigger] self.id_at(i) == other.id_at(i)
            && self.tags_of(self.id_at(i)) == other.tags_of(other.id_at(i)) && self.state_of(
            self.id_at(i),
        ) == other.state_of(other.id_at(i)) by {
            assert(self.ids()[i] == other.ids()[i]);
            assert(self.has_node(self.id_at(i)));
        }
    }

    /// Setting the same valid state twice: after a call that changed a
    /// node's state, the identical call is no longer effective, so it
    /// answers `false`.
    pub proof fn lemma_set_machine_state_idempotent(
        self,
        after: BirdsEyeView,
        id: Seq<char>,
        name: Seq<char>,
    )
        requires
            self.set_state_effective(id, name),
            after.state_of(id) == spec_lookup_by_name(name),
        ensures
            !after.set_state_effective(id, name),
    {
    }

    /// The seven per-state counts of `machine_state_stats` sum to the number
    /// of nodes whose state is not `UNKNOWN`.
    pub proof fn lemma_state_counts_partition(self)
        ensures
            self.state_count(MachineState::NOT_SWITCHED_ON) + self.state_count(
                MachineState::WARMUP,
            ) + self.state_count(MachineState::PROGRAM_INTERRUPTION) + self.state_count(
                MachineState::PRODUCTION_LT_100,
            ) + self.state_count(MachineState::PRODUCTION_100) + self.state_count(
                MachineState::NOT_RUNNING_WO_ERROR,
            ) + self.state_count(MachineState::NOT_RUNNING_W_ERROR) == self.known_count(),
            self.known_count() >= 0,
            forall|st: MachineState| #[trigger] self.state_count(st) >= 0,
    {
        lemma_counts_partition_seq(self.data@);
        assert forall|st: MachineState| #[trigger] self.state_count(st) >= 0 by {
            assert(count_state_in(self.data@, st) >= 0);
        }
    }
}

} // verus!

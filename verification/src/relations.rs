//! Relations between tunes: clusters of tunes that belong together.

use vstd::prelude::*;
use vstd::std_specs::hash::obeys_key_model;
use std::collections::{HashMap, HashSet};
use std::hash::Hash;
use crate::chars::{string_from_chars, string_to_chars};
use crate::collation::{char_texts, insert_sorted, texts_equal, texts_sorted};

verus! {

/// Provide at least this much overhead when growing.
pub const GROWTH_OVERHEAD: usize = 1024;

/// Groupings of tunes. Each tune is either in no group or in a group, whose ID is the ID of
/// its lowest member. Tune ID `usize::MAX` isn't allowed: it marks a tune in no group.
/// Uses linear searches, but constant space per tune.
pub struct Clusters {
    // Dense mapping of tune id -> group ID.
    // For each tune, group ID can be:
    // - MAX  : Unassigned.
    // - Else : The tune belongs to this group ID.
    groups: Vec<usize>,
}

impl View for Clusters {
    type V = Seq<usize>;

    closed spec fn view(&self) -> Seq<usize> {
        self.groups@
    }
}

/// The group of tune `a`, if it is in one.
pub open spec fn group_of(g: Seq<usize>, a: int) -> Option<usize> {
    if 0 <= a < g.len() && g[a] != usize::MAX {
        Some(g[a])
    } else {
        None
    }
}

/// `n` unassigned tunes.
pub open spec fn unassigned(n: nat) -> Seq<usize> {
    Seq::new(n, |_i: int| usize::MAX)
}

/// The groups, grown with room to spare where tune `a` is beyond them.
pub open spec fn grown_for(g: Seq<usize>, a: int) -> Seq<usize> {
    if a >= g.len() {
        g + unassigned((a + 1 + GROWTH_OVERHEAD - g.len()) as nat)
    } else {
        g
    }
}

/// The ID of the group that tune `a` would head: its group's ID, or `a` itself when it is in
/// no group.
pub open spec fn root(g: Seq<usize>, a: int) -> usize {
    if g[a] == usize::MAX {
        a as usize
    } else {
        g[a]
    }
}

/// Tune `i` belongs with `a` or `b` once they are put together: it is one of them, or in the
/// group of one of them.
pub open spec fn joins_with(g: Seq<usize>, a: int, b: int, i: int) -> bool {
    i == a || i == b || (g[i] != usize::MAX && (g[i] == g[a] || g[i] == g[b]))
}

/// Tunes `a` and `b`, both covered by the groups, put in one group: they and every member of
/// their groups form one group, named by its lowest member, which is the lower of the two
/// groups' IDs (a tune in no group counting as the ID of its own).
pub open spec fn joined(g: Seq<usize>, a: int, b: int) -> Seq<usize> {
    let new_id = if root(g, a) < root(g, b) {
        root(g, a)
    } else {
        root(g, b)
    };
    Seq::new(
        g.len(),
        |i: int|
            if joins_with(g, a, b, i) {
                new_id
            } else {
                g[i]
            },
    )
}

/// The groups after putting `a` and `b` together. Putting a tune with itself, or with the
/// unassigned marker, changes nothing.
pub open spec fn added(g: Seq<usize>, a: usize, b: usize) -> Seq<usize> {
    if a == b || a == usize::MAX || b == usize::MAX {
        g
    } else {
        joined(grown_for(grown_for(g, a as int), b as int), a as int, b as int)
    }
}

/// A tune ID that the groups can grow to cover.
pub open spec fn id_fits(a: usize) -> bool {
    a == usize::MAX || a + 1 + GROWTH_OVERHEAD <= usize::MAX
}

/// `add(a, b)` can run: the IDs fit and, where there is anything to do, the groups are not
/// empty.
pub open spec fn add_fits(g: Seq<usize>, a: usize, b: usize) -> bool {
    &&& id_fits(a)
    &&& id_fits(b)
    &&& (a == b || a == usize::MAX || b == usize::MAX || g.len() > 0)
}

/// Every tune in a group points at the group's ID, which is its lowest member: no higher than
/// the tune, and pointing at itself.
pub open spec fn well_formed(g: Seq<usize>) -> bool {
    forall|i: int|
        0 <= i < g.len() && g[i] != usize::MAX ==> (#[trigger] g[i] as int) <= i && g[g[i]
            as int] == g[i]
}


/// The tunes below `n` that name their own group, in order: the IDs of the groups.
pub open spec fn group_ids_below(g: Seq<usize>, n: int) -> Seq<usize>
    decreases n,
{
    if n <= 0 {
        seq![]
    } else {
        group_ids_below(g, n - 1) + if g[n - 1] == n - 1 {
            seq![(n - 1) as usize]
        } else {
            seq![]
        }
    }
}

/// The tunes below `n` whose entry is `c`, in order: the members of group `c`.
pub open spec fn members_below(g: Seq<usize>, c: usize, n: int) -> Seq<usize>
    decreases n,
{
    if n <= 0 {
        seq![]
    } else {
        members_below(g, c, n - 1) + if g[n - 1] == c {
            seq![(n - 1) as usize]
        } else {
            seq![]
        }
    }
}

/// The first tune from `i` on that is in no group.
pub open spec fn first_unassigned_from(g: Seq<usize>, i: int) -> Option<usize>
    decreases g.len() - i,
{
    if i < 0 || i >= g.len() {
        None
    } else if g[i] == usize::MAX {
        Some(i as usize)
    } else {
        first_unassigned_from(g, i + 1)
    }
}

/// The groups after putting each of the first `n` tunes of `o` with its entry there.
pub open spec fn extended(g: Seq<usize>, o: Seq<usize>, n: int) -> Seq<usize>
    decreases n,
{
    if n <= 0 {
        g
    } else {
        let before = extended(g, o, n - 1);
        if o[n - 1] != usize::MAX {
            added(before, (n - 1) as usize, o[n - 1])
        } else {
            before
        }
    }
}

/// `extend` can run: every tune ID fits and, unless every pair is trivial, the groups are not
/// empty.
pub open spec fn extend_fits(g: Seq<usize>, o: Seq<usize>) -> bool {
    &&& o.len() + 1 + GROWTH_OVERHEAD <= usize::MAX
    &&& forall|k: int| 0 <= k < o.len() ==> id_fits(#[trigger] o[k])
    &&& (g.len() > 0 || forall|k: int| 0 <= k < o.len() ==> #[trigger] o[k] == usize::MAX || o[k]
        == k)
}

/// The eight bytes stored for a group entry: little-endian, except that the last byte holds
/// the top byte shifted right by four rather than eight places, so that only the low four bits
/// of the top byte survive, moved up.
pub open spec fn group_bytes(v: u64) -> Seq<u8> {
    seq![
        (v & 0xFF) as u8,
        ((v & 0xFF00) >> 8u64) as u8,
        ((v & 0xFF0000) >> 16u64) as u8,
        ((v & 0xFF000000) >> 24u64) as u8,
        ((v & 0xFF00000000) >> 32u64) as u8,
        ((v & 0xFF0000000000) >> 40u64) as u8,
        ((v & 0xFF000000000000) >> 48u64) as u8,
        ((v & 0xFF00000000000000) >> 52u64) as u8,
    ]
}

/// The entry read back from eight stored bytes, little-endian.
pub open spec fn group_value(s: Seq<u8>) -> u64 {
    (s[0] as u64) | ((s[1] as u64) << 8u64) | ((s[2] as u64) << 16u64) | ((s[3] as u64) << 24u64)
        | ((s[4] as u64) << 32u64) | ((s[5] as u64) << 40u64) | ((s[6] as u64) << 48u64) | ((
    s[7] as u64) << 56u64)
}

/// The stored bytes of the groups, eight per tune.
pub open spec fn encode_groups(g: Seq<usize>) -> Seq<u8>
    decreases g.len(),
{
    if g.len() == 0 {
        seq![]
    } else {
        group_bytes(g[0] as u64) + encode_groups(g.drop_first())
    }
}

/// The groups read from stored bytes, eight per tune; trailing bytes short of eight are
/// ignored.
pub open spec fn decode_groups(s: Seq<u8>) -> Seq<usize>
    decreases s.len(),
{
    if s.len() < 8 {
        seq![]
    } else {
        seq![group_value(s.take(8)) as usize] + decode_groups(s.skip(8))
    }
}

impl Clusters {
    pub fn new() -> (r: Clusters)
        ensures
            r@ == unassigned(GROWTH_OVERHEAD as nat),
            well_formed(r@),
    {
        // Start non-empty, as we're always going to want to do something.
        let mut clusters = Clusters { groups: Vec::new() };
        clusters.grow(GROWTH_OVERHEAD);
        assert(clusters@ =~= unassigned(GROWTH_OVERHEAD as nat));
        clusters
    }

    /// Clusters for tunes up to `id`, all unassigned.
    pub fn with_max_id(id: usize) -> (r: Clusters)
        requires
            id < usize::MAX,
        ensures
            r@ == unassigned((id + 1) as nat),
            well_formed(r@),
    {
        let mut clusters = Clusters { groups: Vec::new() };
        clusters.grow(id + 1);
        assert(clusters@ =~= unassigned((id + 1) as nat));
        clusters
    }

    /// Append unassigned tunes up to length `len`.
    fn grow(&mut self, len: usize)
        requires
            old(self)@.len() <= len,
        ensures
            final(self)@ == old(self)@ + unassigned((len - old(self)@.len()) as nat),
    {
        while self.groups.len() < len
            invariant
                old(self)@.len() <= self@.len() <= len,
                self@ == old(self)@ + unassigned((self@.len() - old(self)@.len()) as nat),
            decreases len - self@.len(),
        {
            self.groups.push(usize::MAX);
            assert(self@ =~= old(self)@ + unassigned((self@.len() - old(self)@.len()) as nat));
        }
    }

    /// Put A and B into the same group, together with the members of their groups. The
    /// group is named by its lowest member.
    pub fn add(&mut self, a: usize, b: usize)
        requires
            add_fits(old(self)@, a, b),
        ensures
            final(self)@ == added(old(self)@, a, b),
            well_formed(old(self)@) ==> well_formed(final(self)@),
    {
        proof {
            if well_formed(old(self)@) {
                law_add_well_formed(old(self)@, a, b);
            }
        }
        if a == b || a == usize::MAX || b == usize::MAX {
            return ;
        }
        // len() - 1 is ok because the groups are not empty here.
        // Ensure that both IDs are represented.

        if a > self.groups.len() - 1 {
            self.grow(a + 1 + GROWTH_OVERHEAD);
        }
        if b > self.groups.len() - 1 {
            self.grow(b + 1 + GROWTH_OVERHEAD);
        }
        let ghost g = self@;
        assert(g == grown_for(grown_for(old(self)@, a as int), b as int));
        let group_a = self.groups[a];
        let group_b = self.groups[b];
        // The group's ID is its lowest member.
        let root_a = if group_a == usize::MAX {
            a
        } else {
            group_a
        };
        let root_b = if group_b == usize::MAX {
            b
        } else {
            group_b
        };
        let new_id = if root_a < root_b {
            root_a
        } else {
            root_b
        };
        if group_a == usize::MAX && group_b == usize::MAX {
            // If neither is in a group yet, create a new one.
            self.groups.set(a, new_id);
            self.groups.set(b, new_id);
            assert(self@ =~= joined(g, a as int, b as int));
        } else if group_a == usize::MAX && new_id == group_b {
            // If A isn't in a group but B is, and the group's ID stays lowest, A joins it.
            self.groups.set(a, group_b);
            assert(self@ =~= joined(g, a as int, b as int));
        } else if group_b == usize::MAX && new_id == group_a {
            // And vice versa...
            self.groups.set(b, group_a);
            assert(self@ =~= joined(g, a as int, b as int));
        } else {
            // Otherwise every member of either group, and A and B, move to the group named
            // by the lowest of them.
            let mut i: usize = 0;
            while i < self.groups.len()
                invariant
                    self@.len() == g.len(),
                    i <= g.len(),
                    a < g.len(),
                    b < g.len(),
                    group_a == g[a as int],
                    group_b == g[b as int],
                    new_id == (if root(g, a as int) < root(g, b as int) {
                        root(g, a as int)
                    } else {
                        root(g, b as int)
                    }),
                    forall|j: int| 0 <= j < i ==> #[trigger] self@[j] == joined(g, a as int, b as int)[j],
                    forall|j: int| i <= j < g.len() ==> #[trigger] self@[j] == g[j],
                decreases g.len() - i,
            {
                let group = self.groups[i];
                if i == a || i == b || (group != usize::MAX && (group == group_a || group
                    == group_b)) {
                    self.groups.set(i, new_id);
                }
                i += 1;
            }
            assert(self@ =~= joined(g, a as int, b as int));
        }
    }

    /// The number of tunes covered.
    pub fn len(&self) -> (r: usize)
        ensures
            r == self@.len(),
    {
        self.groups.len()
    }

    /// The group ID of a tune, if it is in a group.
    pub fn get(&self, a: usize) -> (r: Option<usize>)
        ensures
            r == group_of(self@, a as int),
    {
        if a < self.groups.len() {
            let group_id = self.groups[a];
            if group_id == usize::MAX {
                // Not in a group.
                None
            } else {
                // Any other number is the actual group ID.
                Some(group_id)
            }
        } else {
            None
        }
    }

    /// The IDs of the groups: each tune that names its own group, in order.
    pub fn group_ids(&self) -> (r: Vec<usize>)
        ensures
            r@ == group_ids_below(self@, self@.len() as int),
    {
        let mut result: Vec<usize> = Vec::new();
        let mut i: usize = 0;
        while i < self.groups.len()
            invariant
                i <= self@.len(),
                result@ == group_ids_below(self@, i as int),
            decreases self@.len() - i,
        {
            if self.groups[i] == i {
                result.push(i);
            }
            i += 1;
            assert(result@ =~= group_ids_below(self@, i as int));
        }
        result
    }

    /// The number of groups.
    pub fn num_groups(&self) -> (r: usize)
        ensures
            r == group_ids_below(self@, self@.len() as int).len(),
    {
        let mut result: usize = 0;
        let mut i: usize = 0;
        while i < self.groups.len()
            invariant
                i <= self@.len(),
                result == group_ids_below(self@, i as int).len(),
                result <= i,
            decreases self@.len() - i,
        {
            if self.groups[i] == i {
                result += 1;
            }
            i += 1;
        }
        result
    }

    /// The members of group `a`, in order.
    pub fn get_members(&self, a: usize) -> (r: Vec<usize>)
        ensures
            r@ == members_below(self@, a, self@.len() as int),
    {
        let mut result: Vec<usize> = Vec::new();
        let mut i: usize = 0;
        while i < self.groups.len()
            invariant
                i <= self@.len(),
                result@ == members_below(self@, a, i as int),
            decreases self@.len() - i,
        {
            if self.groups[i] == a {
                result.push(i);
            }
            i += 1;
            assert(result@ =~= members_below(self@, a, i as int));
        }
        result
    }

    /// The members of each group, groups in the order of their IDs.
    pub fn get_groups(&self) -> (r: Vec<Vec<usize>>)
        ensures
            r@.map_values(|v: Vec<usize>| v@) == group_ids_below(self@, self@.len() as int).map_values(
                |c: usize| members_below(self@, c, self@.len() as int),
            ),
    {
        let mut result: Vec<Vec<usize>> = Vec::new();
        let groups = self.group_ids();
        let mut k: usize = 0;
        while k < groups.len()
            invariant
                k <= groups@.len(),
                groups@ == group_ids_below(self@, self@.len() as int),
                result@.map_values(|v: Vec<usize>| v@) == groups@.take(k as int).map_values(
                    |c: usize| members_below(self@, c, self@.len() as int),
                ),
            decreases groups@.len() - k,
        {
            let members = self.get_members(groups[k]);
            let ghost old_result = result@;
            result.push(members);
            proof {
                let prev = groups@.take(k as int).map_values(
                    |c: usize| members_below(self@, c, self@.len() as int),
                );
                let next = groups@.take(k + 1).map_values(
                    |c: usize| members_below(self@, c, self@.len() as int),
                );
                assert(old_result.map_values(|v: Vec<usize>| v@).len() == prev.len());
                assert(old_result.len() == k);
                assert(result@.len() == k + 1);
                assert forall|j: int| 0 <= j < k + 1 implies (#[trigger] result@[j])@ == next[j] by {
                    if j < k {
                        assert(result@[j] == old_result[j]);
                        assert(old_result.map_values(|v: Vec<usize>| v@)[j] == prev[j]);
                        assert(prev[j] == members_below(self@, groups@[j], self@.len() as int));
                    } else {
                        assert(result@[j] == members);
                    }
                    assert(next[j] == members_below(self@, groups@[j], self@.len() as int));
                }
                assert(result@.map_values(|v: Vec<usize>| v@) =~= next);
            }
            k += 1;
        }
        assert(groups@.take(groups@.len() as int) =~= groups@);
        result
    }

    /// The first tune after `a` that isn't in a group. This relies on the clusters covering all
    /// the tune IDs.
    pub fn next_ungrouped_after(&self, a: u32) -> (r: Option<usize>)
        requires
            a < u32::MAX,
        ensures
            r == first_unassigned_from(self@, a + 1),
    {
        let mut i: usize = (a + 1) as usize;
        while i < self.groups.len()
            invariant
                a + 1 <= i,
                first_unassigned_from(self@, i as int) == first_unassigned_from(self@, a + 1),
            decreases self@.len() - i,
        {
            if self.groups[i] == usize::MAX {
                return Some(i);
            }
            i += 1;
        }
        None
    }

    /// The stored form of the clusters: eight bytes per tune.
    pub fn to_bytes(&self) -> (r: Vec<u8>)
        ensures
            r@ == encode_groups(self@),
    {
        let mut buf: Vec<u8> = Vec::new();
        let mut k: usize = 0;
        assert(self@.skip(0) =~= self@);
        while k < self.groups.len()
            invariant
                k <= self@.len(),
                buf@ + encode_groups(self@.skip(k as int)) == encode_groups(self@),
            decreases self@.len() - k,
        {
            let ghost before = buf@;
            let value = self.groups[k] as u64;
            buf.push((value & 0x00000000000000FF) as u8);
            buf.push(((value & 0x000000000000FF00) >> 8) as u8);
            buf.push(((value & 0x0000000000FF0000) >> 16) as u8);
            buf.push(((value & 0x00000000FF000000) >> 24) as u8);
            buf.push(((value & 0x000000FF00000000) >> 32) as u8);
            buf.push(((value & 0x0000FF0000000000) >> 40) as u8);
            buf.push(((value & 0x00FF000000000000) >> 48) as u8);
            buf.push(((value & 0xFF00000000000000) >> 52) as u8);
            proof {
                let rest = self@.skip(k as int);
                assert(rest.drop_first() =~= self@.skip(k + 1));
                assert(buf@ =~= before + group_bytes(value));
                assert(before + encode_groups(rest) =~= buf@ + encode_groups(self@.skip(k + 1)));
            }
            k += 1;
        }
        assert(encode_groups(self@.skip(self@.len() as int)) =~= Seq::<u8>::empty());
        assert(buf@ + Seq::<u8>::empty() =~= buf@);
        buf
    }

    /// Clusters read back from their stored form; trailing bytes short of eight are ignored.
    pub fn from_bytes(bytes: &[u8]) -> (r: Clusters)
        ensures
            r@ == decode_groups(bytes@),
    {
        let mut groups: Vec<usize> = Vec::new();
        let mut p: usize = 0;
        assert(bytes@.skip(0) =~= bytes@);
        while bytes.len() - p >= 8
            invariant
                p <= bytes@.len(),
                groups@ + decode_groups(bytes@.skip(p as int)) == decode_groups(bytes@),
            decreases bytes@.len() - p,
        {
            let value: u64 = (bytes[p] as u64) | (bytes[p + 1] as u64) << 8 | (bytes[p + 2] as u64)
                << 16 | (bytes[p + 3] as u64) << 24 | (bytes[p + 4] as u64) << 32 | (bytes[p + 5]
                as u64) << 40 | (bytes[p + 6] as u64) << 48 | (bytes[p + 7] as u64) << 56;
            let ghost before = groups@;
            groups.push(value as usize);
            proof {
                let rest = bytes@.skip(p as int);
                assert(rest.take(8) =~= bytes@.subrange(p as int, p + 8));
                assert(rest.skip(8) =~= bytes@.skip(p + 8));
                assert(group_value(rest.take(8)) == value);
                assert(before + decode_groups(rest) =~= groups@ + decode_groups(bytes@.skip(p + 8)));
            }
            p += 8;
        }
        assert(decode_groups(bytes@.skip(p as int)) =~= Seq::<usize>::empty());
        assert(groups@ + Seq::<usize>::empty() =~= groups@);
        Clusters { groups }
    }

    /// Merge the groups of another clustering into these: each tune of the other that is in
    /// a group is put together with its entry there.
    pub fn extend(&mut self, other: Clusters)
        requires
            extend_fits(old(self)@, other@),
        ensures
            final(self)@ == extended(old(self)@, other@, other@.len() as int),
            well_formed(old(self)@) ==> well_formed(final(self)@),
    {
        proof {
            if well_formed(old(self)@) {
                law_extend_well_formed(old(self)@, other@, other@.len() as int);
            }
        }
        let ghost g = self@;
        let ghost o = other@;
        let mut a: usize = 0;
        while a < other.groups.len()
            invariant
                a <= o.len(),
                o == other@,
                extend_fits(g, o),
                self@ == extended(g, o, a as int),
                self@.len() >= g.len(),
                g.len() == 0 ==> self@ == g,
            decreases o.len() - a,
        {
            let b = other.groups[a];
            if b != usize::MAX {
                self.add(a, b);
            }
            a += 1;
        }
    }
}

/// Law: after putting two distinct tunes together, both are in a group, and in the same one.
pub proof fn law_add_joins(g: Seq<usize>, a: usize, b: usize)
    requires
        a != b,
        a != usize::MAX,
        b != usize::MAX,
    ensures
        group_of(added(g, a, b), a as int) is Some,
        group_of(added(g, a, b), a as int) == group_of(added(g, a, b), b as int),
{
}

/// Law: putting tunes together never separates tunes that were in one group.
pub proof fn law_add_keeps_groups(g: Seq<usize>, a: usize, b: usize, x: int, y: int)
    requires
        group_of(g, x) is Some,
        group_of(g, x) == group_of(g, y),
    ensures
        group_of(added(g, a, b), x) is Some,
        group_of(added(g, a, b), x) == group_of(added(g, a, b), y),
{
}

/// Law: putting `a` and `b` together leaves every tune that is neither of them, nor in the
/// group of either, where it was.
pub proof fn law_add_leaves_others(g: Seq<usize>, a: usize, b: usize, x: int)
    requires
        x != a,
        x != b,
        group_of(g, x) is None || (group_of(g, x) != group_of(g, a as int) && group_of(g, x)
            != group_of(g, b as int)),
    ensures
        group_of(added(g, a, b), x) == group_of(g, x),
{
}

/// Growing the groups leaves every tune's group as it was.
proof fn lemma_grown_same(g: Seq<usize>, a: int, x: int)
    ensures
        group_of(grown_for(g, a), x) == group_of(g, x),
        well_formed(g) ==> well_formed(grown_for(g, a)),
{
    let h = grown_for(g, a);
    if well_formed(g) {
        assert forall|i: int| 0 <= i < h.len() && h[i] != usize::MAX implies (
        #[trigger] h[i] as int) <= i && h[h[i] as int] == h[i] by {
            assert(i < g.len());
            assert(h[i] == g[i]);
        }
    }
}

/// Law: putting tunes together keeps the clustering well formed: each group is still named
/// by its lowest member.
pub proof fn law_add_well_formed(g: Seq<usize>, a: usize, b: usize)
    requires
        well_formed(g),
    ensures
        well_formed(added(g, a, b)),
{
    if !(a == b || a == usize::MAX || b == usize::MAX) {
        lemma_grown_same(g, a as int, 0);
        lemma_grown_same(grown_for(g, a as int), b as int, 0);
        let h = grown_for(grown_for(g, a as int), b as int);
        let (ai, bi) = (a as int, b as int);
        let r = joined(h, ai, bi);
        let new_id = r[ai];
        assert(new_id as int <= ai && new_id as int <= bi);
        assert(r[new_id as int] == new_id) by {
            if h[ai] != usize::MAX {
                assert(h[h[ai] as int] == h[ai]);
            }
            if h[bi] != usize::MAX {
                assert(h[h[bi] as int] == h[bi]);
            }
        }
        assert forall|i: int| 0 <= i < r.len() && r[i] != usize::MAX implies (
        #[trigger] r[i] as int) <= i && r[r[i] as int] == r[i] by {
            if joins_with(h, ai, bi, i) {
                assert(r[i] == new_id);
            } else {
                let c = h[i] as int;
                assert(h[c] == h[i]);
                assert(!joins_with(h, ai, bi, c));
            }
        }
    }
}

/// Tunes `x` and `y` share a group.
pub open spec fn same_group(g: Seq<usize>, x: int, y: int) -> bool {
    group_of(g, x) is Some && group_of(g, x) == group_of(g, y)
}

/// Tune `x` is `a` or `b`, or shares a group with one of them.
pub open spec fn with_pair(g: Seq<usize>, a: int, b: int, x: int) -> bool {
    x == a || x == b || same_group(g, x, a) || same_group(g, x, b)
}

/// Law: putting `a` and `b` together makes the smallest grouping that keeps every old group
/// together and puts `a` with `b`: two tunes share a group afterwards exactly when they shared
/// one before, or each of them is `a` or `b` or shared a group with one of them.
pub proof fn law_add_smallest_grouping(g: Seq<usize>, a: usize, b: usize, x: int, y: int)
    requires
        well_formed(g),
        a != b,
        a != usize::MAX,
        b != usize::MAX,
    ensures
        same_group(added(g, a, b), x, y) <==> (same_group(g, x, y) || (with_pair(
            g,
            a as int,
            b as int,
            x,
        ) && with_pair(g, a as int, b as int, y))),
{
    let g1 = grown_for(g, a as int);
    let h = grown_for(g1, b as int);
    lemma_grown_same(g, a as int, 0);
    lemma_grown_same(g1, b as int, 0);
    let (ai, bi) = (a as int, b as int);
    // Groups and pairings read the same on the grown groups.
    assert forall|z: int| #[trigger] group_of(h, z) == group_of(g, z) by {
        lemma_grown_same(g, ai, z);
        lemma_grown_same(g1, bi, z);
    }
    let r = joined(h, ai, bi);
    let new_id = r[ai];
    assert(new_id != usize::MAX);
    assert forall|z: int| 0 <= z < h.len() implies (joins_with(h, ai, bi, z) <==> with_pair(
        g,
        ai,
        bi,
        z,
    )) by {
        assert(group_of(h, z) == group_of(g, z));
        assert(group_of(h, ai) == group_of(g, ai));
        assert(group_of(h, bi) == group_of(g, bi));
    }
    if 0 <= x < h.len() && 0 <= y < h.len() {
        assert(group_of(h, x) == group_of(g, x));
        assert(group_of(h, y) == group_of(g, y));
        if joins_with(h, ai, bi, x) && !joins_with(h, ai, bi, y) && h[y] != usize::MAX {
            let c = h[y] as int;
            assert(h[c] == h[y]);
            assert(r[y] != new_id);
        }
        if joins_with(h, ai, bi, y) && !joins_with(h, ai, bi, x) && h[x] != usize::MAX {
            let c = h[x] as int;
            assert(h[c] == h[x]);
            assert(r[x] != new_id);
        }
    } else {
        assert(group_of(h, x) == group_of(g, x));
        assert(group_of(h, y) == group_of(g, y));
        assert(group_of(r, x) is None || group_of(r, y) is None);
        assert(!with_pair(g, ai, bi, x) || !with_pair(g, ai, bi, y));
    }
}

/// What the members of group `c` below `n` are: in increasing order, and exactly the tunes
/// below `n` whose entry is `c`.
proof fn lemma_members_below(g: Seq<usize>, c: usize, n: int)
    requires
        0 <= n <= g.len(),
        g.len() <= usize::MAX,
    ensures
        forall|k: int|
            0 <= k < members_below(g, c, n).len() ==> (#[trigger] members_below(g, c, n)[k]) < n
                && g[members_below(g, c, n)[k] as int] == c,
        forall|i: int, j: int|
            0 <= i < j < members_below(g, c, n).len() ==> members_below(g, c, n)[i]
                < members_below(g, c, n)[j],
        forall|x: int| 0 <= x < n && g[x] == c ==> members_below(g, c, n).contains(x as usize),
    decreases n,
{
    if n > 0 {
        lemma_members_below(g, c, n - 1);
        let m = members_below(g, c, n);
        let p = members_below(g, c, n - 1);
        if g[n - 1] == c {
            assert(m =~= p.push((n - 1) as usize));
            assert(m[p.len() as int] == (n - 1) as usize);
            assert forall|k: int| 0 <= k < m.len() implies (#[trigger] m[k]) < n && g[m[k] as int]
                == c by {
                if k < p.len() {
                    assert(m[k] == p[k]);
                }
            }
        } else {
            assert(m =~= p);
        }
        assert forall|x: int| 0 <= x < n && g[x] == c implies m.contains(x as usize) by {
            if x < n - 1 {
                let k = choose|k: int| 0 <= k < p.len() && p[k] == x as usize;
                assert(m[k] == p[k]);
            } else {
                assert(m[p.len() as int] == x as usize);
            }
        }
    }
}

/// What the group IDs below `n` are: in increasing order, and exactly the tunes below `n`
/// that name their own group.
proof fn lemma_group_ids_below(g: Seq<usize>, n: int)
    requires
        0 <= n <= g.len(),
    ensures
        forall|k: int|
            0 <= k < group_ids_below(g, n).len() ==> (#[trigger] group_ids_below(g, n)[k]) < n
                && g[group_ids_below(g, n)[k] as int] == group_ids_below(g, n)[k],
        forall|i: int, j: int|
            0 <= i < j < group_ids_below(g, n).len() ==> group_ids_below(g, n)[i]
                < group_ids_below(g, n)[j],
        forall|x: int| 0 <= x < n && g[x] == x ==> group_ids_below(g, n).contains(x as usize),
    decreases n,
{
    if n > 0 {
        lemma_group_ids_below(g, n - 1);
        let m = group_ids_below(g, n);
        let p = group_ids_below(g, n - 1);
        if g[n - 1] == n - 1 {
            assert(m[p.len() as int] == (n - 1) as usize);
        } else {
            assert(m =~= p);
        }
        assert forall|x: int| 0 <= x < n && g[x] == x implies m.contains(x as usize) by {
            if x < n - 1 {
                let k = choose|k: int| 0 <= k < p.len() && p[k] == x as usize;
                assert(m[k] == p[k]);
            } else {
                assert(m[p.len() as int] == x as usize);
            }
        }
    }
}

/// Law: the members listed for a group (by `get_members`) are exactly the tunes whose group
/// (by `get`) it is, in increasing order.
pub proof fn law_members_agree_with_get(g: Seq<usize>, c: usize, x: usize)
    requires
        g.len() <= usize::MAX,
        c != usize::MAX,
    ensures
        members_below(g, c, g.len() as int).contains(x) <==> group_of(g, x as int) == Some(c),
        forall|i: int, j: int|
            0 <= i < j < members_below(g, c, g.len() as int).len() ==> members_below(
                g,
                c,
                g.len() as int,
            )[i] < members_below(g, c, g.len() as int)[j],
{
    lemma_members_below(g, c, g.len() as int);
}

/// Law: the group IDs (by `group_ids`) are in increasing order and are exactly the tunes that
/// name their own group; in a well-formed clustering every tune in a group has its group's ID
/// among them.
pub proof fn law_group_ids_complete(g: Seq<usize>, x: usize)
    ensures
        group_ids_below(g, g.len() as int).contains(x) <==> (x < g.len() && g[x as int] == x),
        forall|i: int, j: int|
            0 <= i < j < group_ids_below(g, g.len() as int).len() ==> group_ids_below(
                g,
                g.len() as int,
            )[i] < group_ids_below(g, g.len() as int)[j],
        well_formed(g) && group_of(g, x as int) is Some ==> group_ids_below(
            g,
            g.len() as int,
        ).contains(g[x as int]),
{
    lemma_group_ids_below(g, g.len() as int);
    if well_formed(g) && group_of(g, x as int) is Some {
        assert(g[g[x as int] as int] == g[x as int]);
    }
}

/// Law: merging another clustering keeps the clustering well formed.
pub proof fn law_extend_well_formed(g: Seq<usize>, o: Seq<usize>, n: int)
    requires
        well_formed(g),
    ensures
        well_formed(extended(g, o, n)),
    decreases n,
{
    if n > 0 {
        law_extend_well_formed(g, o, n - 1);
        if o[n - 1] != usize::MAX {
            law_add_well_formed(extended(g, o, n - 1), (n - 1) as usize, o[n - 1]);
        }
    }
}

/// Law: in a well-formed clustering a tune that does not name its own group has no members.
pub proof fn law_members_of_non_group(g: Seq<usize>, c: usize)
    requires
        g.len() <= usize::MAX,
        well_formed(g),
        c != usize::MAX,
        !(c < g.len() && g[c as int] == c),
    ensures
        members_below(g, c, g.len() as int).len() == 0,
{
    lemma_members_below(g, c, g.len() as int);
    let m = members_below(g, c, g.len() as int);
    if m.len() > 0 {
        let x = m[0] as int;
        assert(0 <= x < g.len() && g[x] == c);
        assert(g[g[x] as int] == g[x]);
    }
}

/// Law: in a well-formed clustering the ID of a group is its lowest member: the group's ID is
/// in the group, and no member is lower.
pub proof fn law_group_named_by_lowest(g: Seq<usize>, i: int, j: int)
    requires
        well_formed(g),
        group_of(g, i) is Some,
    ensures
        group_of(g, group_of(g, i)->0 as int) == group_of(g, i),
        group_of(g, j) == group_of(g, i) ==> group_of(g, i)->0 <= j,
{
    let c = g[i] as int;
    assert(g[c] == g[i]);
    if group_of(g, j) == group_of(g, i) {
        assert(g[j] as int <= j);
    }
}

/// Law: the groups are well formed in a new clustering.
pub proof fn law_unassigned_well_formed(n: nat)
    ensures
        well_formed(unassigned(n)),
{
}

proof fn lemma_extended_keeps(g: Seq<usize>, o: Seq<usize>, m: int, n: int, x: int, y: int)
    requires
        0 <= m <= n <= o.len(),
        group_of(extended(g, o, m), x) is Some,
        group_of(extended(g, o, m), x) == group_of(extended(g, o, m), y),
    ensures
        group_of(extended(g, o, n), x) is Some,
        group_of(extended(g, o, n), x) == group_of(extended(g, o, n), y),
    decreases n - m,
{
    if m < n {
        let next = extended(g, o, m + 1);
        if o[m] != usize::MAX {
            law_add_keeps_groups(extended(g, o, m), m as usize, o[m], x, y);
        }
        lemma_extended_keeps(g, o, m + 1, n, x, y);
    }
}

/// Law: merging another clustering keeps together the tunes that were in one group.
pub proof fn law_extend_keeps_groups(g: Seq<usize>, o: Seq<usize>, x: int, y: int)
    requires
        group_of(g, x) is Some,
        group_of(g, x) == group_of(g, y),
    ensures
        group_of(extended(g, o, o.len() as int), x) == group_of(extended(g, o, o.len() as int), y),
{
    lemma_extended_keeps(g, o, 0, o.len() as int, x, y);
}

/// Law: after merging another clustering, each tune of it that is in a group shares a group
/// with its entry there.
pub proof fn law_extend_joins(g: Seq<usize>, o: Seq<usize>, x: int)
    requires
        o.len() <= usize::MAX,
        0 <= x < o.len(),
        o[x] != usize::MAX,
    ensures
        group_of(extended(g, o, o.len() as int), x) == group_of(
            extended(g, o, o.len() as int),
            o[x] as int,
        ),
{
    if o[x] != x {
        law_add_joins(extended(g, o, x), x as usize, o[x]);
        lemma_extended_keeps(g, o, x + 1, o.len() as int, x, o[x] as int);
    }
}

/// Law: after merging a well-formed clustering, every two tunes that it had in one group share
/// a group.
pub proof fn law_extend_covers(g: Seq<usize>, o: Seq<usize>, x: int, y: int)
    requires
        o.len() <= usize::MAX,
        well_formed(o),
        group_of(o, x) is Some,
        group_of(o, x) == group_of(o, y),
    ensures
        group_of(extended(g, o, o.len() as int), x) == group_of(extended(g, o, o.len() as int), y),
{
    law_extend_joins(g, o, x);
    law_extend_joins(g, o, y);
}

/// Law: an entry below 2^56 reads back from its stored bytes unchanged. (Entries with any of
/// the top eight bits set, such as the unassigned marker, do not: only four of those bits are
/// stored, in the wrong place.)
pub proof fn law_group_bytes_round_trip(v: u64)
    requires
        v < 0x100_0000_0000_0000,
    ensures
        group_value(group_bytes(v)) == v,
{
    let s = group_bytes(v);
    assert((((v & 0xFF) as u8) as u64) | (((((v & 0xFF00) >> 8u64) as u8) as u64) << 8u64) | ((((
    (v & 0xFF0000) >> 16u64) as u8) as u64) << 16u64) | (((((v & 0xFF000000) >> 24u64) as u8)
        as u64) << 24u64) | (((((v & 0xFF00000000) >> 32u64) as u8) as u64) << 32u64) | (((((v
        & 0xFF0000000000) >> 40u64) as u8) as u64) << 40u64) | (((((v & 0xFF000000000000)
        >> 48u64) as u8) as u64) << 48u64) | (((((v & 0xFF00000000000000) >> 52u64) as u8)
        as u64) << 56u64) == v) by (bit_vector)
        requires
            v < 0x100_0000_0000_0000,
    ;
}

/// Law: clusters whose entries are all below 2^56 read back from their stored form unchanged.
pub proof fn law_encode_decode(g: Seq<usize>)
    requires
        forall|k: int| 0 <= k < g.len() ==> (#[trigger] g[k]) < 0x100_0000_0000_0000,
    ensures
        decode_groups(encode_groups(g)) == g,
    decreases g.len(),
{
    if g.len() > 0 {
        let e = encode_groups(g);
        let head = group_bytes(g[0] as u64);
        let rest = g.drop_first();
        law_group_bytes_round_trip(g[0] as u64);
        assert(e.take(8) =~= head);
        assert(e.skip(8) =~= encode_groups(rest));
        law_encode_decode(rest);
        assert(decode_groups(e) =~= g);
    } else {
        assert(decode_groups(encode_groups(g)) =~= g);
    }
}


/// How the score of a similarity between two documents is normalised.
#[derive(Clone, Copy)]
pub enum ScoreNormalization {
    // Score is normalized to the length of the 'A' document.
    // Good when 'a' is a short search term.
    DocA,
    // Score is normalized to the maximum of the two document lengths.
    // Good when 'a' is a whole tune and we're looking for doc similarity.
    Max,
}

/// A binary vector space model with terms of type `K`. Each document's terms are a bitfield of
/// a fixed number of bits, held as 64-bit words; term IDs are wrapped to fit, so terms may
/// share a bit. The exact term IDs of each document are kept beside.
pub struct BinaryVSM<K> {
    // Map of term to term id. This simply increments for each new term found.
    terms: HashMap<K, usize>,
    // Inverted map of term id to term.
    terms_i: HashMap<usize, K>,
    next_term_id: usize,
    // Indexed 2d array as (tune_id * word_capacity) + word.
    docs_terms: Vec<u64>,
    // Map of tune id -> set of term IDs found.
    docs_terms_exact: Vec<HashSet<usize>>,
    // Top tune id.
    top_id: usize,
    // Size of table per tune, recorded as bits and whole 64-bit words.
    word_capacity: usize,
    bit_capacity: usize,
}

/// The word and the bit within it of a bit index.
pub open spec fn word_bit(i: int) -> (int, int) {
    (i / 64, i % 64)
}

impl<K: Eq + Hash + Clone> BinaryVSM<K> {
    /// The term IDs given so far.
    pub closed spec fn terms(&self) -> Map<K, usize> {
        self.terms@
    }

    /// The ID that the next new term gets.
    pub closed spec fn next_term_id(&self) -> usize {
        self.next_term_id
    }

    /// The bitfields of the documents, one after another.
    pub closed spec fn bits(&self) -> Seq<u64> {
        self.docs_terms@
    }

    /// The exact term IDs of each document.
    pub closed spec fn exact_terms(&self) -> Seq<Set<usize>> {
        self.docs_terms_exact@.map_values(|h: HashSet<usize>| h@)
    }

    /// The term of each ID given so far.
    pub closed spec fn term_names(&self) -> Map<usize, K> {
        self.terms_i@
    }

    pub closed spec fn top_id(&self) -> usize {
        self.top_id
    }

    pub closed spec fn word_capacity(&self) -> usize {
        self.word_capacity
    }

    pub closed spec fn bit_capacity(&self) -> usize {
        self.bit_capacity
    }

    /// The tables have their sizes: a bitfield and a term set for each document up to the top
    /// ID, with enough words for the bits.
    pub closed spec fn wf(&self) -> bool {
        &&& self.bit_capacity > 0
        &&& self.word_capacity == self.bit_capacity / 64 + 1
        &&& self.docs_terms@.len() == self.word_capacity * (self.top_id + 1)
        &&& self.docs_terms_exact@.len() == self.top_id + 1
        &&& forall|i: usize| #[trigger] self.terms_i@.contains_key(i) <==> i < self.next_term_id
        &&& self.terms_i@.len() == self.next_term_id
    }

    /// A model for documents up to `top_id`, each with `bit_capacity` bits, with no terms.
    pub fn new(bit_capacity: usize, top_id: usize) -> (r: BinaryVSM<K>)
        requires
            bit_capacity > 0,
            (bit_capacity / 64 + 1) * (top_id + 1) <= usize::MAX,
        ensures
            r.wf(),
            r.terms() == Map::<K, usize>::empty(),
            r.next_term_id() == 0,
            r.term_names() == Map::<usize, K>::empty(),
            r.top_id() == top_id,
            r.bit_capacity() == bit_capacity,
            r.bits() == Seq::new(r.bits().len(), |_i: int| 0u64),
            r.exact_terms() == Seq::new((top_id + 1) as nat, |_d: int| Set::<usize>::empty()),
    {
        let word_capacity = bit_capacity / 64 + 1;
        assert(word_capacity * (top_id + 1) <= usize::MAX && top_id + 1 <= usize::MAX) by (nonlinear_arith)
            requires
                word_capacity == bit_capacity / 64 + 1,
                (bit_capacity / 64 + 1) * (top_id + 1) <= usize::MAX,
        ;
        let size = word_capacity * (top_id + 1);
        let mut table: Vec<u64> = Vec::new();
        while table.len() < size
            invariant
                table@.len() <= size,
                forall|i: int| 0 <= i < table@.len() ==> table@[i] == 0u64,
            decreases size - table@.len(),
        {
            table.push(0);
        }
        let mut exact: Vec<HashSet<usize>> = Vec::new();
        while exact.len() <= top_id
            invariant
                exact@.len() <= top_id + 1,
                forall|d: int| 0 <= d < exact@.len() ==> (#[trigger] exact@[d])@ == Set::<usize>::empty(),
            decreases top_id + 1 - exact@.len(),
        {
            exact.push(HashSet::new());
        }
        let r = BinaryVSM {
            terms: HashMap::new(),
            terms_i: HashMap::new(),
            docs_terms: table,
            next_term_id: 0,
            word_capacity: word_capacity,
            bit_capacity: bit_capacity,
            docs_terms_exact: exact,
            top_id: top_id,
        };
        broadcast use vstd::std_specs::hash::group_hash_axioms;
        assert(r.term_names() =~= Map::<usize, K>::empty());
        assert(r.bits() =~= Seq::new(r.bits().len(), |_i: int| 0u64));
        assert(r.exact_terms() =~= Seq::new((top_id + 1) as nat, |_d: int| Set::<usize>::empty()));
        r
    }

    /// The ID of a term: the one it was given, or the next, which it is then given. IDs are
    /// unbounded; they are wrapped to fit the bitfield.
    pub fn get_term_id(&mut self, term: K) -> (r: usize)
        requires
            old(self).wf(),
        ensures
            final(self).wf(),
            forall|i: usize| #[trigger] old(self).term_names().contains_key(i)
                ==> final(self).term_names()[i] == old(self).term_names()[i],
            final(self).next_term_id() == old(self).next_term_id() ==> final(self).term_names()
                == old(self).term_names(),
            final(self).next_term_id() != old(self).next_term_id() ==> r == old(self).next_term_id()
                && cloned(term, final(self).term_names()[r]),
            final(self).bits() == old(self).bits(),
            final(self).exact_terms() == old(self).exact_terms(),
            final(self).top_id() == old(self).top_id(),
            final(self).word_capacity() == old(self).word_capacity(),
            final(self).bit_capacity() == old(self).bit_capacity(),
            final(self).next_term_id() <= old(self).next_term_id() + 1,
            obeys_key_model::<K>() ==> {
                &&& r == (if old(self).terms().contains_key(term) {
                    old(self).terms()[term]
                } else {
                    old(self).next_term_id()
                })
                &&& final(self).terms() == old(self).terms().insert(term, r)
                &&& final(self).next_term_id() == (if old(self).terms().contains_key(term) {
                    old(self).next_term_id() as int
                } else {
                    old(self).next_term_id() + 1
                })
            },
    {
        broadcast use vstd::std_specs::hash::group_hash_axioms;

        if let Some(id) = self.terms.get(&term) {
            let id = *id;
            proof {
                if obeys_key_model::<K>() {
                    assert(self.terms@.insert(term, id) =~= self.terms@);
                }
            }
            return id;
        }
        let id = self.next_term_id;
        // The term is stored twice, once in each direction.
        let ghost names = self.terms_i@;
        let copy = term.clone();
        self.terms_i.insert(id, copy);
        self.terms.insert(term, id);
        proof {
            assert(!names.contains_key(id));
            assert(names.dom().finite());
            assert(self.terms_i@.dom() =~= names.dom().insert(id));
        }
        // The next ID is the number of terms given one so far.
        self.next_term_id = self.terms_i.len();
        id
    }

    /// The word and the bit within it of a term ID.
    pub fn get_word_bit(&self, term_id: usize) -> (r: (usize, usize))
        ensures
            r.0 == word_bit(term_id as int).0,
            r.1 == word_bit(term_id as int).1,
    {
        (term_id / 64, term_id % 64)
    }

    /// Add a term to a document: set its bit, wrapped to the bitfield, and record its ID. A
    /// document beyond the top ID is ignored.
    pub fn add(&mut self, tune_id: usize, term: K)
        requires
            old(self).wf(),
        ensures
            final(self).wf(),
            final(self).top_id() == old(self).top_id(),
            final(self).word_capacity() == old(self).word_capacity(),
            final(self).bit_capacity() == old(self).bit_capacity(),
            tune_id > old(self).top_id() ==> final(self).bits() == old(self).bits(),
            tune_id > old(self).top_id() ==> final(self).terms() == old(self).terms(),
            tune_id > old(self).top_id() ==> final(self).next_term_id() == old(self).next_term_id(),
            tune_id > old(self).top_id() ==> final(self).exact_terms() == old(self).exact_terms(),
            final(self).exact_terms().len() == old(self).exact_terms().len(),
            forall|i: usize| #[trigger] old(self).term_names().contains_key(i)
                ==> final(self).term_names()[i] == old(self).term_names()[i],
            final(self).next_term_id() == old(self).next_term_id() ==> final(self).term_names()
                == old(self).term_names(),
            final(self).next_term_id() != old(self).next_term_id() ==> cloned(
                term,
                final(self).term_names()[old(self).next_term_id()],
            ),
            tune_id <= old(self).top_id() ==> final(self).next_term_id() <= old(self).next_term_id() + 1,
            tune_id <= old(self).top_id() ==> exists|t: usize|
                final(self).exact_terms() == old(self).exact_terms().update(
                    tune_id as int,
                    old(self).exact_terms()[tune_id as int].insert(t),
                ),
            tune_id <= old(self).top_id() && obeys_key_model::<K>() ==> {
                let t = if old(self).terms().contains_key(term) {
                    old(self).terms()[term]
                } else {
                    old(self).next_term_id()
                };
                let (word, bit) = word_bit((t % old(self).bit_capacity()) as int);
                let i = tune_id * old(self).word_capacity() + word;
                &&& final(self).terms() == old(self).terms().insert(term, t)
                &&& final(self).bits() == old(self).bits().update(
                    i,
                    old(self).bits()[i] | (1u64 << (bit as u64)),
                )
                &&& final(self).exact_terms() == old(self).exact_terms().update(
                    tune_id as int,
                    old(self).exact_terms()[tune_id as int].insert(t),
                )
            },
    {
        broadcast use vstd::std_specs::hash::group_hash_axioms;
        broadcast use vstd::std_specs::hash::axiom_usize_obeys_hash_table_key_model;

        if tune_id > self.top_id {
            return ;
        }
        let term_id = self.get_term_id(term);
        // Wrap round to fit in the table.
        let bit_i = term_id % self.bit_capacity;
        let (word_offset, bit_offset) = self.get_word_bit(bit_i);
        assert(word_offset < self.word_capacity) by {
            assert(bit_i < self.bit_capacity);
        }
        assert(tune_id * self.word_capacity + word_offset < self.docs_terms@.len()) by (nonlinear_arith)
            requires
                tune_id <= self.top_id,
                word_offset < self.word_capacity,
                self.docs_terms@.len() == self.word_capacity * (self.top_id + 1),
        ;
        let table_len = self.docs_terms.len();
        assert(tune_id * self.word_capacity + word_offset < table_len);
        let i = tune_id * self.word_capacity + word_offset;
        let word = self.docs_terms[i] | (1u64 << (bit_offset as u64));
        self.docs_terms.set(i, word);
        let mut exact: HashSet<usize> = HashSet::new();
        std::mem::swap(&mut exact, &mut self.docs_terms_exact[tune_id]);
        exact.insert(term_id);
        self.docs_terms_exact.set(tune_id, exact);
        assert(self.exact_terms() =~= old(self).exact_terms().update(
            tune_id as int,
            old(self).exact_terms()[tune_id as int].insert(term_id),
        ));
    }

    /// The term dictionary: each term with its ID.
    pub fn term_ids(&self) -> (r: &HashMap<K, usize>)
        ensures
            r@ == self.terms(),
    {
        &self.terms
    }

    /// The term with an ID.
    pub fn term_for_id(&self, term_id: usize) -> (r: Option<&K>)
        requires
            self.wf(),
        ensures
            r is Some <==> term_id < self.next_term_id(),
            r matches Some(k) ==> *k == self.term_names()[term_id],
    {
        broadcast use vstd::std_specs::hash::group_hash_axioms;

        self.terms_i.get(&term_id)
    }

    /// The exact term IDs of a document.
    pub fn exact_term_ids(&self, tune_id: usize) -> (r: &HashSet<usize>)
        requires
            self.wf(),
            tune_id <= self.top_id(),
        ensures
            r@ == self.exact_terms()[tune_id as int],
    {
        &self.docs_terms_exact[tune_id]
    }

    /// The number of terms given IDs.
    pub fn term_count(&self) -> (r: usize)
        ensures
            r == self.next_term_id(),
    {
        self.next_term_id
    }

    /// The top tune ID.
    pub fn get_top_id(&self) -> (r: usize)
        ensures
            r == self.top_id(),
    {
        self.top_id
    }

    /// The number of bits of each document's bitfield.
    pub fn get_bit_capacity(&self) -> (r: usize)
        ensures
            r == self.bit_capacity(),
    {
        self.bit_capacity
    }

    /// The number of words of each document's bitfield.
    pub fn get_word_capacity(&self) -> (r: usize)
        ensures
            r == self.word_capacity(),
    {
        self.word_capacity
    }

    /// A word of the documents' bitfields, which lie one after another.
    pub fn word_at(&self, i: usize) -> (r: u64)
        requires
            i < self.bits().len(),
        ensures
            r == self.bits()[i as int],
    {
        self.docs_terms[i]
    }
}

/// The number of the documents `ids`, counted by position, that hold term `t`.
pub open spec fn term_count_in(ids: Seq<usize>, exact: Seq<Set<usize>>, t: usize) -> nat
    decreases ids.len(),
{
    if ids.len() == 0 {
        0
    } else {
        term_count_in(ids.drop_last(), exact, t) + if exact[ids.last() as int].contains(t) {
            1nat
        } else {
            0nat
        }
    }
}

proof fn lemma_term_count_bound(ids: Seq<usize>, exact: Seq<Set<usize>>, t: usize)
    ensures
        term_count_in(ids, exact, t) <= ids.len(),
    decreases ids.len(),
{
    if ids.len() > 0 {
        lemma_term_count_bound(ids.drop_last(), exact, t);
    }
}

impl<K: Eq + Hash + Clone> BinaryVSM<K> {
    /// The words of a document's bitfield.
    pub fn words_of(&self, d: usize) -> (r: Vec<u64>)
        requires
            self.wf(),
            d <= self.top_id(),
        ensures
            r@ == doc_words(self.bits(), d as int, self.word_capacity() as int),
            r@.len() == self.word_capacity(),
    {
        let wc = self.word_capacity;
        let n = self.docs_terms.len();
        proof {
            assert(d * wc + wc <= n) by (nonlinear_arith)
                requires
                    d <= self.top_id,
                    n == wc * (self.top_id + 1),
            ;
        }
        let start = d * wc;
        let mut words: Vec<u64> = Vec::new();
        let mut i: usize = 0;
        while i < wc
            invariant
                self.wf(),
                wc == self.word_capacity,
                start == d * wc,
                n == self.docs_terms@.len(),
                start + wc <= n,
                i <= wc,
                words@ == self.docs_terms@.subrange(start as int, start + i),
            decreases wc - i,
        {
            words.push(self.docs_terms[start + i]);
            i += 1;
            assert(words@ =~= self.docs_terms@.subrange(start as int, start + i));
        }
        words
    }

    /// For each document below the top ID: the number of bits it shares with the query words,
    /// and the number of its own bits set.
    pub fn bitfield_overlaps(&self, a_words: &[u64]) -> (r: Vec<(u32, u32)>)
        requires
            self.wf(),
            a_words@.len() >= self.word_capacity(),
            64 * self.word_capacity() <= u32::MAX,
        ensures
            r@.len() == self.top_id(),
            forall|b: int|
                0 <= b < self.top_id() ==> (#[trigger] r@[b]).0 == bits_shared(
                    a_words@,
                    doc_words(self.bits(), b, self.word_capacity() as int),
                    self.word_capacity() as int,
                ) && r@[b].1 == bits_set(doc_words(self.bits(), b, self.word_capacity() as int)),
    {
        let wc = self.word_capacity;
        let mut result: Vec<(u32, u32)> = Vec::new();
        let mut b: usize = 0;
        while b < self.top_id
            invariant
                self.wf(),
                wc == self.word_capacity,
                a_words@.len() >= wc,
                64 * wc <= u32::MAX,
                b <= self.top_id,
                result@.len() == b,
                forall|j: int|
                    0 <= j < b ==> (#[trigger] result@[j]).0 == bits_shared(
                        a_words@,
                        doc_words(self.bits(), j, wc as int),
                        wc as int,
                    ) && result@[j].1 == bits_set(doc_words(self.bits(), j, wc as int)),
            decreases self.top_id - b,
        {
            let words = self.words_of(b);
            let ghost doc = doc_words(self.bits(), b as int, wc as int);
            let mut shared: u32 = 0;
            let mut own: u32 = 0;
            let mut i: usize = 0;
            while i < wc
                invariant
                    wc == words@.len(),
                    words@ == doc,
                    a_words@.len() >= wc,
                    64 * wc <= u32::MAX,
                    i <= wc,
                    shared == bits_shared(a_words@, doc, i as int),
                    own == bits_set(doc.take(i as int)),
                    shared <= 64 * i,
                    own <= 64 * i,
                decreases wc - i,
            {
                assert(doc.take(i + 1).drop_last() =~= doc.take(i as int));
                let both = count_ones(a_words[i] & words[i]);
                let mine = count_ones(words[i]);
                shared = shared + both;
                own = own + mine;
                i += 1;
            }
            assert(doc.take(wc as int) =~= doc);
            result.push((shared, own));
            b += 1;
        }
        result
    }

    /// The number of the query's term IDs that a document holds exactly.
    pub fn exact_overlap(&self, a_terms: &HashSet<usize>, d: usize) -> (r: u32)
        requires
            self.wf(),
            d <= self.top_id(),
            a_terms@.len() <= u32::MAX,
        ensures
            r == a_terms@.intersect(self.exact_terms()[d as int]).len(),
    {
        broadcast use vstd::std_specs::hash::group_hash_axioms;

        let b_terms = self.exact_term_ids(d);
        let ghost bset = b_terms@;
        proof {
            let rest = vstd::std_specs::iter::IteratorSpec::remaining(&vstd::std_specs::hash::spec_hash_keys_iter(a_terms));
            vstd::seq_lib::seq_to_set_is_finite(rest.unref());
            vstd::set_lib::lemma_len_intersect(a_terms@, bset);
        }
        let mut count: u32 = 0;
        for t in it: a_terms.iter()
            invariant
                a_terms@.intersect(bset).len() <= a_terms@.len(),
                bset == b_terms@,
                bset == self.exact_terms()[d as int],
                it.seq().unref().to_set() == a_terms@,
                it.seq().no_duplicates(),
                it.seq().len() == a_terms@.len(),
                a_terms@.len() <= u32::MAX,
                count == prefix_hits(it.seq().unref(), it.index() as int, bset),
                count <= it.index(),
                it.index() == it.seq().len() ==> count == a_terms@.intersect(bset).len(),
        {
            let ghost idx = it.index() as int;
            if b_terms.contains(t) {
                count = count + 1;
            }
            proof {
                assert(it.seq().unref()[idx] == *t);
                assert(it.seq().unref().no_duplicates()) by {
                    assert forall|i: int, j: int|
                        0 <= i < it.seq().len() && 0 <= j < it.seq().len() && i != j implies it.seq().unref()[i]
                        != it.seq().unref()[j] by {
                        assert(it.seq()[i] != it.seq()[j]);
                    }
                }
                lemma_prefix_hits(it.seq().unref(), idx + 1, bset);
                assert(it.seq().unref().take(it.seq().len() as int) =~= it.seq().unref());
            }
        }
        count
    }

    /// The query of some terms: their bitfield, in which each term that has an ID sets the bit
    /// of the ID wrapped to the bitfield, and the set of those IDs. Terms without an ID are
    /// ignored.
    pub fn query_terms(&self, terms: &[K]) -> (r: (Vec<u64>, HashSet<usize>))
        requires
            self.wf(),
        ensures
            r.0@.len() == self.word_capacity(),
            obeys_key_model::<K>() ==> r.0@ == query_bits(
                terms@,
                self.terms(),
                self.bit_capacity(),
                self.word_capacity(),
            ),
            obeys_key_model::<K>() ==> r.1@ == known_ids(terms@, self.terms()),
    {
        broadcast use vstd::std_specs::hash::group_hash_axioms;

        let wc = self.word_capacity;
        let bc = self.bit_capacity;
        let mut words: Vec<u64> = Vec::new();
        while words.len() < wc
            invariant
                words@.len() <= wc,
                forall|i: int| 0 <= i < words@.len() ==> words@[i] == 0u64,
            decreases wc - words@.len(),
        {
            words.push(0);
        }
        assert(words@ =~= query_bits(terms@.take(0), self.terms(), bc, wc));
        let mut ids: HashSet<usize> = HashSet::new();
        assert(ids@ =~= known_ids(terms@.take(0), self.terms()));
        let mut k: usize = 0;
        while k < terms.len()
            invariant
                self.wf(),
                wc == self.word_capacity,
                bc == self.bit_capacity,
                k <= terms@.len(),
                words@.len() == wc,
                obeys_key_model::<K>() ==> words@ == query_bits(terms@.take(k as int), self.terms(), bc, wc),
                obeys_key_model::<K>() ==> ids@ == known_ids(terms@.take(k as int), self.terms()),
            decreases terms@.len() - k,
        {
            let ghost prefix = terms@.take(k + 1);
            assert(prefix.drop_last() =~= terms@.take(k as int));
            assert(prefix.last() == terms@[k as int]);
            let ghost before_ids = ids@;
            if let Some(term_id) = self.terms.get(&terms[k]) {
                let bit_i = *term_id % bc;
                let (w, b) = self.get_word_bit(bit_i);
                assert(w < wc) by {
                    assert(bit_i < bc);
                }
                let word = words[w] | (1u64 << (b as u64));
                words.set(w, word);
                ids.insert(*term_id);
                proof {
                    if obeys_key_model::<K>() {
                        assert(ids@ =~= known_ids(prefix, self.terms())) by {
                            assert forall|t: usize| ids@.contains(t) <==> known_ids(prefix, self.terms()).contains(t) by {
                                if known_ids(prefix, self.terms()).contains(t) {
                                    let j = choose|j: int|
                                        0 <= j < prefix.len() && self.terms().contains_key(prefix[j])
                                            && self.terms()[prefix[j]] == t;
                                    if j < k {
                                        assert(terms@.take(k as int)[j] == prefix[j]);
                                    }
                                }
                                if before_ids.contains(t) {
                                    let j = choose|j: int|
                                        0 <= j < k && self.terms().contains_key(terms@.take(k as int)[j])
                                            && self.terms()[terms@.take(k as int)[j]] == t;
                                    assert(prefix[j] == terms@.take(k as int)[j]);
                                }
                                if t == *term_id {
                                    assert(prefix[k as int] == terms@[k as int]);
                                }
                            }
                        }
                    }
                }
            } else {
                proof {
                    if obeys_key_model::<K>() {
                        assert(ids@ =~= known_ids(prefix, self.terms())) by {
                            assert forall|t: usize| ids@.contains(t) <==> known_ids(prefix, self.terms()).contains(t) by {
                                if known_ids(prefix, self.terms()).contains(t) {
                                    let j = choose|j: int|
                                        0 <= j < prefix.len() && self.terms().contains_key(prefix[j])
                                            && self.terms()[prefix[j]] == t;
                                    if j < k {
                                        assert(terms@.take(k as int)[j] == prefix[j]);
                                    }
                                }
                                if before_ids.contains(t) {
                                    let j = choose|j: int|
                                        0 <= j < k && self.terms().contains_key(terms@.take(k as int)[j])
                                            && self.terms()[terms@.take(k as int)[j]] == t;
                                    assert(prefix[j] == terms@.take(k as int)[j]);
                                }
                            }
                        }
                    }
                }
            }
            k += 1;
        }
        assert(terms@.take(terms@.len() as int) =~= terms@);
        (words, ids)
    }

    /// For each term ID, the number of the documents `ids`, counted by position, that hold it.
    pub fn term_counts(&self, ids: &Vec<usize>) -> (r: Vec<u32>)
        requires
            self.wf(),
            ids@.len() <= u32::MAX,
            forall|k: int| 0 <= k < ids@.len() ==> #[trigger] ids@[k] <= self.top_id(),
        ensures
            r@.len() == self.next_term_id(),
            forall|t: int| 0 <= t < r@.len() ==> #[trigger] r@[t] == term_count_in(
                ids@,
                self.exact_terms(),
                t as usize,
            ),
    {
        broadcast use vstd::std_specs::hash::group_hash_axioms;

        let ghost exact = self.exact_terms();
        let n = self.next_term_id;
        let mut counts: Vec<u32> = Vec::new();
        while counts.len() < n
            invariant
                counts@.len() <= n,
                forall|t: int| 0 <= t < counts@.len() ==> counts@[t] == 0,
            decreases n - counts@.len(),
        {
            counts.push(0);
        }
        let mut k: usize = 0;
        while k < ids.len()
            invariant
                self.wf(),
                n == self.next_term_id,
                exact == self.exact_terms(),
                ids@.len() <= u32::MAX,
                forall|j: int| 0 <= j < ids@.len() ==> #[trigger] ids@[j] <= self.top_id(),
                k <= ids@.len(),
                counts@.len() == n,
                forall|t: int| 0 <= t < n ==> #[trigger] counts@[t] == term_count_in(
                    ids@.take(k as int),
                    exact,
                    t as usize,
                ),
            decreases ids@.len() - k,
        {
            let features = self.exact_term_ids(ids[k]);
            let ghost set = features@;
            let ghost before = counts@;
            proof {
                assert forall|t: int| 0 <= t < n implies #[trigger] before[t] <= k by {
                    lemma_term_count_bound(ids@.take(k as int), exact, t as usize);
                }
            }
            for f in it: features.iter()
                invariant
                    set == features@,
                    it.seq().unref().to_set() == set,
                    it.seq().no_duplicates(),
                    counts@.len() == n,
                    forall|t: int| 0 <= t < n ==> #[trigger] before[t] <= k,
                    k < ids@.len(),
                    ids@.len() <= u32::MAX,
                    forall|t: int| 0 <= t < n ==> #[trigger] counts@[t] == before[t] + if exists|j: int|
                        0 <= j < it.index() && *it.seq()[j] == t as usize {
                        1int
                    } else {
                        0int
                    },
                    it.index() == it.seq().len() ==> forall|t: int|
                        0 <= t < n ==> #[trigger] counts@[t] == before[t] + if set.contains(t as usize) {
                            1int
                        } else {
                            0int
                        },
            {
                let ghost idx = it.index() as int;
                if *f < n {
                    assert forall|j: int| 0 <= j < idx implies *it.seq()[j] != *f by {
                        assert(it.seq()[j] != it.seq()[idx]);
                    }
                    let c = counts[*f];
                    counts.set(*f, c + 1);
                }
                proof {
                    assert forall|t: int| 0 <= t < n implies #[trigger] counts@[t] == before[t] + if exists|j: int|
                        0 <= j < idx + 1 && *it.seq()[j] == t as usize {
                        1int
                    } else {
                        0int
                    } by {
                        if t as usize == *f {
                            assert(*it.seq()[idx] == t as usize);
                        } else {
                            if exists|j: int| 0 <= j < idx + 1 && *it.seq()[j] == t as usize {
                                let j = choose|j: int| 0 <= j < idx + 1 && *it.seq()[j] == t as usize;
                                assert(j < idx);
                            }
                        }
                    }
                    assert forall|t: int| idx + 1 == it.seq().len() && 0 <= t < n implies #[trigger] counts@[t]
                        == before[t] + if set.contains(t as usize) {
                        1int
                    } else {
                        0int
                    } by {
                        let seen = exists|j: int| 0 <= j < idx + 1 && *it.seq()[j] == t as usize;
                        if set.contains(t as usize) {
                            assert(it.seq().unref().to_set().contains(t as usize));
                            let j = choose|j: int| 0 <= j < it.seq().len() && it.seq().unref()[j] == t as usize;
                            assert(*it.seq()[j] == t as usize);
                        } else {
                            if seen {
                                let j = choose|j: int| 0 <= j < idx + 1 && *it.seq()[j] == t as usize;
                                assert(it.seq().unref()[j] == t as usize);
                                assert(it.seq().unref().to_set().contains(t as usize));
                            }
                        }
                    }
                }
            }
            proof {
                assert(ids@.take(k + 1).drop_last() =~= ids@.take(k as int));
                assert forall|t: int| 0 <= t < n implies #[trigger] counts@[t] == term_count_in(
                    ids@.take(k + 1),
                    exact,
                    t as usize,
                ) by {
                    assert(exact[ids@[k as int] as int] == set);
                }
            }
            k += 1;
        }
        assert(ids@.take(ids@.len() as int) =~= ids@);
        counts
    }
}

/// Facet entries as values: feature value and count.
pub open spec fn facet_texts(v: Seq<(String, u32)>) -> Seq<(Seq<char>, u32)> {
    v.map_values(|e: (String, u32)| (e.0@, e.1))
}

/// Entries with the highest counts first.
pub open spec fn counts_descending(e: Seq<(Seq<char>, u32)>) -> bool {
    forall|i: int, j: int| 0 <= i < j < e.len() ==> (#[trigger] e[j]).1 <= (#[trigger] e[i]).1
}

/// One of the terms below `m` with a non-zero count has type `t`, value `v` and count `c`.
pub open spec fn facet_in(
    pt: Seq<Seq<char>>,
    pv: Seq<Seq<char>>,
    cs: Seq<u32>,
    m: int,
    t: Seq<char>,
    v: Seq<char>,
    c: u32,
) -> bool {
    exists|q: int| 0 <= q < m && cs[q] > 0 && pt[q] == t && pv[q] == v && cs[q] == c
}

/// The group of type `t` holds value `v` with count `c`.
pub open spec fn in_facet_group(
    tv: Seq<Seq<char>>,
    ev: Seq<Seq<(Seq<char>, u32)>>,
    t: Seq<char>,
    v: Seq<char>,
    c: u32,
) -> bool {
    exists|i: int, k: int|
        0 <= i < tv.len() && 0 <= k < ev[i].len() && tv[i] == t && ev[i][k].0 == v && ev[i][k].1 == c
}

/// Facet groups `tv`, `ev` built from the terms below `m` with types `pt`, values `pv` and
/// counts `cs`: each type once, its entries non-empty and highest count first, each entry
/// from a counted term of its type, and each counted term present.
pub open spec fn facet_groups_hold(
    pt: Seq<Seq<char>>,
    pv: Seq<Seq<char>>,
    cs: Seq<u32>,
    m: int,
    tv: Seq<Seq<char>>,
    ev: Seq<Seq<(Seq<char>, u32)>>,
) -> bool {
    &&& tv.len() == ev.len()
    &&& forall|i: int, j: int| 0 <= i < j < tv.len() ==> #[trigger] tv[i] != #[trigger] tv[j]
    &&& forall|i: int| 0 <= i < ev.len() ==> (#[trigger] ev[i]).len() > 0 && counts_descending(ev[i])
    &&& forall|i: int, k: int|
        #![trigger ev[i][k]]
        0 <= i < ev.len() && 0 <= k < ev[i].len() ==> facet_in(pt, pv, cs, m, tv[i], ev[i][k].0, ev[i][k].1)
    &&& forall|q: int| 0 <= q < m && cs[q] > 0 ==> in_facet_group(tv, ev, #[trigger] pt[q], pv[q], cs[q])
}

/// Insert a facet entry among entries with the highest counts first, after those whose
/// counts are no lower; the position is returned.
fn insert_by_count(v: &mut Vec<(String, u32)>, e: (String, u32)) -> (pos: usize)
    requires
        counts_descending(facet_texts(old(v)@)),
    ensures
        pos <= old(v)@.len(),
        facet_texts(final(v)@) == facet_texts(old(v)@).insert(pos as int, (e.0@, e.1)),
        counts_descending(facet_texts(final(v)@)),
{
    let ghost t = facet_texts(v@);
    let mut pos: usize = 0;
    while pos < v.len() && v[pos].1 >= e.1
        invariant
            pos <= v@.len(),
            t == facet_texts(v@),
            forall|k: int| 0 <= k < pos ==> (#[trigger] t[k]).1 >= e.1,
        decreases v@.len() - pos,
    {
        pos += 1;
    }
    let ghost ev = (e.0@, e.1);
    v.insert(pos, e);
    proof {
        let u = facet_texts(v@);
        assert(u =~= t.insert(pos as int, ev));
        assert forall|i: int, j: int| 0 <= i < j < u.len() implies (#[trigger] u[j]).1 <= (
        #[trigger] u[i]).1 by {
            if j < pos {
                assert(u[i] == t[i] && u[j] == t[j]);
            } else if j == pos {
                assert(u[i] == t[i]);
            } else if i == pos {
                assert(u[j] == t[j - 1]);
                assert(t[pos as int].1 < ev.1);
                if j - 1 > pos {
                    assert(t[j - 1].1 <= t[pos as int].1);
                }
            } else if i < pos {
                assert(u[i] == t[i] && u[j] == t[j - 1]);
            } else {
                assert(u[i] == t[i - 1] && u[j] == t[j - 1]);
            }
        }
    }
    pos
}

/// A counted term whose type has a facet group already joins it.
proof fn lemma_facets_join(
    pt: Seq<Seq<char>>,
    pv: Seq<Seq<char>>,
    cs: Seq<u32>,
    m: int,
    tv: Seq<Seq<char>>,
    ev: Seq<Seq<(Seq<char>, u32)>>,
    g: int,
    pos: int,
)
    requires
        facet_groups_hold(pt, pv, cs, m, tv, ev),
        0 <= m < pt.len(),
        pt.len() == pv.len(),
        pt.len() == cs.len(),
        cs[m] > 0,
        0 <= g < tv.len(),
        tv[g] == pt[m],
        0 <= pos <= ev[g].len(),
        counts_descending(ev[g].insert(pos, (pv[m], cs[m]))),
    ensures
        facet_groups_hold(pt, pv, cs, m + 1, tv, ev.update(g, ev[g].insert(pos, (pv[m], cs[m])))),
{
    let ev2 = ev.update(g, ev[g].insert(pos, (pv[m], cs[m])));
    assert forall|i: int, k: int|
        #![trigger ev2[i][k]]
        0 <= i < ev2.len() && 0 <= k < ev2[i].len() implies facet_in(
            pt,
            pv,
            cs,
            m + 1,
            tv[i],
            ev2[i][k].0,
            ev2[i][k].1,
        ) by {
        if i != g {
            assert(ev2[i] == ev[i]);
            assert(facet_in(pt, pv, cs, m, tv[i], ev[i][k].0, ev[i][k].1));
        } else if k < pos {
            assert(ev2[i][k] == ev[i][k]);
            assert(facet_in(pt, pv, cs, m, tv[i], ev[i][k].0, ev[i][k].1));
        } else if k == pos {
            assert(ev2[i][k] == (pv[m], cs[m]));
        } else {
            assert(ev2[i][k] == ev[i][k - 1]);
            assert(facet_in(pt, pv, cs, m, tv[i], ev[i][k - 1].0, ev[i][k - 1].1));
        }
    }
    assert forall|q: int| 0 <= q < m + 1 && cs[q] > 0 implies in_facet_group(
        tv,
        ev2,
        #[trigger] pt[q],
        pv[q],
        cs[q],
    ) by {
        if q < m {
            assert(in_facet_group(tv, ev, pt[q], pv[q], cs[q]));
            let (i, k) = choose|i: int, k: int|
                0 <= i < tv.len() && 0 <= k < ev[i].len() && tv[i] == pt[q] && ev[i][k].0 == pv[q]
                    && ev[i][k].1 == cs[q];
            if i != g {
                assert(ev2[i] == ev[i]);
            } else if k < pos {
                assert(ev2[i][k] == ev[i][k]);
            } else {
                assert(ev2[i][k + 1] == ev[i][k]);
            }
        } else {
            assert(ev2[g][pos] == (pv[q], cs[q]));
        }
    }
    assert forall|i: int| 0 <= i < ev2.len() implies (#[trigger] ev2[i]).len() > 0 && counts_descending(
        ev2[i],
    ) by {
        if i != g {
            assert(ev2[i] == ev[i]);
        }
    }
}

/// A counted term whose type has no facet group yet starts one.
proof fn lemma_facets_start(
    pt: Seq<Seq<char>>,
    pv: Seq<Seq<char>>,
    cs: Seq<u32>,
    m: int,
    tv: Seq<Seq<char>>,
    ev: Seq<Seq<(Seq<char>, u32)>>,
)
    requires
        facet_groups_hold(pt, pv, cs, m, tv, ev),
        0 <= m < pt.len(),
        pt.len() == pv.len(),
        pt.len() == cs.len(),
        cs[m] > 0,
        forall|i: int| 0 <= i < tv.len() ==> tv[i] != pt[m],
    ensures
        facet_groups_hold(pt, pv, cs, m + 1, tv.push(pt[m]), ev.push(seq![(pv[m], cs[m])])),
{
    let tv2 = tv.push(pt[m]);
    let ev2 = ev.push(seq![(pv[m], cs[m])]);
    assert forall|i: int, k: int|
        #![trigger ev2[i][k]]
        0 <= i < ev2.len() && 0 <= k < ev2[i].len() implies facet_in(
            pt,
            pv,
            cs,
            m + 1,
            tv2[i],
            ev2[i][k].0,
            ev2[i][k].1,
        ) by {
        if i < ev.len() {
            assert(ev2[i] == ev[i]);
            assert(tv2[i] == tv[i]);
            assert(facet_in(pt, pv, cs, m, tv[i], ev[i][k].0, ev[i][k].1));
        } else {
            assert(tv2[i] == pt[m]);
            assert(ev2[i][k] == (pv[m], cs[m]));
        }
    }
    assert forall|q: int| 0 <= q < m + 1 && cs[q] > 0 implies in_facet_group(
        tv2,
        ev2,
        #[trigger] pt[q],
        pv[q],
        cs[q],
    ) by {
        if q < m {
            assert(in_facet_group(tv, ev, pt[q], pv[q], cs[q]));
            let (i, k) = choose|i: int, k: int|
                0 <= i < tv.len() && 0 <= k < ev[i].len() && tv[i] == pt[q] && ev[i][k].0 == pv[q]
                    && ev[i][k].1 == cs[q];
            assert(tv2[i] == tv[i]);
            assert(ev2[i] == ev[i]);
        } else {
            assert(tv2[tv.len() as int] == pt[q]);
            assert(ev2[tv.len() as int][0] == (pv[q], cs[q]));
        }
    }
    assert forall|i: int, j: int| 0 <= i < j < tv2.len() implies #[trigger] tv2[i] != #[trigger] tv2[j] by {
        if j == tv.len() {
            assert(tv2[i] == tv[i]);
        } else {
            assert(tv2[i] == tv[i] && tv2[j] == tv[j]);
        }
    }
    assert forall|i: int| 0 <= i < ev2.len() implies (#[trigger] ev2[i]).len() > 0 && counts_descending(
        ev2[i],
    ) by {
        if i < ev.len() {
            assert(ev2[i] == ev[i]);
        }
    }
}

/// Group counted terms by type, each group's entries highest count first.
fn group_facets(pair_types: &Vec<Vec<char>>, pair_values: &Vec<String>, counts: &Vec<u32>) -> (r: (
    Vec<Vec<char>>,
    Vec<Vec<(String, u32)>>,
))
    requires
        pair_types@.len() == pair_values@.len(),
        pair_types@.len() == counts@.len(),
    ensures
        facet_groups_hold(
            char_texts(pair_types@),
            string_texts(pair_values@),
            counts@,
            pair_types@.len() as int,
            char_texts(r.0@),
            r.1@.map_values(|v: Vec<(String, u32)>| facet_texts(v@)),
        ),
{
    let ghost pt = char_texts(pair_types@);
    let ghost pv = string_texts(pair_values@);
    let ghost cs = counts@;
    let mut types: Vec<Vec<char>> = Vec::new();
    let mut entries: Vec<Vec<(String, u32)>> = Vec::new();
    let mut m: usize = 0;
    assert(char_texts(types@) =~= Seq::<Seq<char>>::empty());
    assert(entries@.map_values(|v: Vec<(String, u32)>| facet_texts(v@)) =~= Seq::<
        Seq<(Seq<char>, u32)>,
    >::empty());
    while m < pair_types.len()
        invariant
            m <= pair_types@.len(),
            pair_types@.len() == pair_values@.len(),
            pair_types@.len() == counts@.len(),
            pt == char_texts(pair_types@),
            pv == string_texts(pair_values@),
            cs == counts@,
            facet_groups_hold(
                pt,
                pv,
                cs,
                m as int,
                char_texts(types@),
                entries@.map_values(|v: Vec<(String, u32)>| facet_texts(v@)),
            ),
        decreases pair_types@.len() - m,
    {
        let ghost tv = char_texts(types@);
        let ghost ev = entries@.map_values(|v: Vec<(String, u32)>| facet_texts(v@));
        if counts[m] > 0 {
            let ty = &pair_types[m];
            let entry = (pair_values[m].clone(), counts[m]);
            assert(ty@ == pt[m as int]);
            assert((entry.0@, entry.1) == (pv[m as int], cs[m as int]));
            let mut g: usize = 0;
            while g < types.len() && !texts_equal(&types[g], ty)
                invariant
                    g <= types@.len(),
                    tv == char_texts(types@),
                    ty@ == pt[m as int],
                    forall|i: int| 0 <= i < g ==> tv[i] != pt[m as int],
                decreases types@.len() - g,
            {
                g += 1;
            }
            if g < types.len() {
                let mut group: Vec<(String, u32)> = Vec::new();
                std::mem::swap(&mut group, &mut entries[g]);
                assert(facet_texts(group@) == ev[g as int]);
                let pos = insert_by_count(&mut group, entry);
                entries.set(g, group);
                proof {
                    lemma_facets_join(pt, pv, cs, m as int, tv, ev, g as int, pos as int);
                    assert(entries@.map_values(|v: Vec<(String, u32)>| facet_texts(v@)) =~= ev.update(
                        g as int,
                        ev[g as int].insert(pos as int, (pv[m as int], cs[m as int])),
                    ));
                }
            } else {
                let new_type = ty.clone();
                types.push(new_type);
                let mut group: Vec<(String, u32)> = Vec::new();
                group.push(entry);
                assert(facet_texts(group@) =~= seq![(pv[m as int], cs[m as int])]);
                entries.push(group);
                proof {
                    lemma_facets_start(pt, pv, cs, m as int, tv, ev);
                    assert(char_texts(types@) =~= tv.push(pt[m as int]));
                    assert(entries@.map_values(|v: Vec<(String, u32)>| facet_texts(v@)) =~= ev.push(
                        seq![(pv[m as int], cs[m as int])],
                    ));
                }
            }
        }
        m += 1;
    }
    (types, entries)
}

/// Some named term has type `t` and value `v`, and `c`, not zero, of the documents `ids` hold it.
pub open spec fn is_facet(
    names: Map<usize, (String, String)>,
    ids: Seq<usize>,
    exact: Seq<Set<usize>>,
    t: Seq<char>,
    v: Seq<char>,
    c: u32,
) -> bool {
    exists|id: usize|
        #[trigger] names.contains_key(id) && names[id].0@ == t && names[id].1@ == v && c
            == term_count_in(ids, exact, id) && c > 0
}

/// The facets of the documents `ids`: for each feature type once, each of its values that
/// any of them hold, with the number holding it, highest counts first.
pub open spec fn facets_hold(
    names: Map<usize, (String, String)>,
    ids: Seq<usize>,
    exact: Seq<Set<usize>>,
    r: Seq<(String, Vec<(String, u32)>)>,
) -> bool {
    &&& forall|i: int, j: int| 0 <= i < j < r.len() ==> (#[trigger] r[i]).0@ != (#[trigger] r[j]).0@
    &&& forall|i: int|
        0 <= i < r.len() ==> (#[trigger] r[i]).1@.len() > 0 && counts_descending(
            facet_texts(r[i].1@),
        )
    &&& forall|i: int, k: int|
        #![trigger r[i].1@[k]]
        0 <= i < r.len() && 0 <= k < r[i].1@.len() ==> is_facet(
            names,
            ids,
            exact,
            r[i].0@,
            r[i].1@[k].0@,
            r[i].1@[k].1,
        )
    &&& forall|id: usize|
        #[trigger] names.contains_key(id) && term_count_in(ids, exact, id) > 0 ==> exists|i: int|
            0 <= i < r.len() && (#[trigger] r[i]).0@ == names[id].0@ && facet_texts(r[i].1@).contains(
                (names[id].1@, term_count_in(ids, exact, id) as u32),
            )
}

/// Facet groups built from all the counted terms are the facets.
proof fn lemma_facet_groups_are_facets(
    names: Map<usize, (String, String)>,
    ids: Seq<usize>,
    exact: Seq<Set<usize>>,
    pt: Seq<Seq<char>>,
    pv: Seq<Seq<char>>,
    cs: Seq<u32>,
    tv: Seq<Seq<char>>,
    ev: Seq<Seq<(Seq<char>, u32)>>,
    r: Seq<(String, Vec<(String, u32)>)>,
)
    requires
        pt.len() == pv.len(),
        pt.len() == cs.len(),
        forall|id: usize| #[trigger] names.contains_key(id) <==> id < pt.len(),
        forall|q: int| 0 <= q < pt.len() ==> #[trigger] pt[q] == names[q as usize].0@ && pv[q]
            == names[q as usize].1@ && cs[q] == term_count_in(ids, exact, q as usize),
        facet_groups_hold(pt, pv, cs, pt.len() as int, tv, ev),
        r.len() == tv.len(),
        forall|j: int| 0 <= j < r.len() ==> (#[trigger] r[j]).0@ == tv[j] && facet_texts(r[j].1@)
            == ev[j],
    ensures
        facets_hold(names, ids, exact, r),
{
    assert forall|i: int, j: int| 0 <= i < j < r.len() implies (#[trigger] r[i]).0@
        != (#[trigger] r[j]).0@ by {
        assert(tv[i] != tv[j]);
    }
    assert forall|i: int| 0 <= i < r.len() implies (#[trigger] r[i]).1@.len() > 0
        && counts_descending(facet_texts(r[i].1@)) by {
        assert(ev[i].len() > 0);
    }
    assert forall|i: int, k: int|
        #![trigger r[i].1@[k]]
        0 <= i < r.len() && 0 <= k < r[i].1@.len() implies is_facet(
            names,
            ids,
            exact,
            r[i].0@,
            r[i].1@[k].0@,
            r[i].1@[k].1,
        ) by {
        assert(facet_texts(r[i].1@)[k] == ev[i][k]);
        assert(facet_in(pt, pv, cs, pt.len() as int, tv[i], ev[i][k].0, ev[i][k].1));
        let q = choose|q: int|
            0 <= q < pt.len() && cs[q] > 0 && pt[q] == tv[i] && pv[q] == ev[i][k].0 && cs[q]
                == ev[i][k].1;
        assert(names.contains_key(q as usize));
        assert(pt[q] == names[q as usize].0@);
    }
    assert forall|id: usize|
        #[trigger] names.contains_key(id) && term_count_in(ids, exact, id) > 0 implies exists|i: int|
        0 <= i < r.len() && (#[trigger] r[i]).0@ == names[id].0@ && facet_texts(r[i].1@).contains(
            (names[id].1@, term_count_in(ids, exact, id) as u32),
        ) by {
        let q = id as int;
        assert(pt[q] == names[id].0@);
        assert(in_facet_group(tv, ev, pt[q], pv[q], cs[q]));
        let (j, k) = choose|j: int, k: int|
            0 <= j < tv.len() && 0 <= k < ev[j].len() && tv[j] == pt[q] && ev[j][k].0 == pv[q]
                && ev[j][k].1 == cs[q];
        assert(facet_texts(r[j].1@)[k] == (names[id].1@, term_count_in(ids, exact, id) as u32));
        assert(r[j].0@ == names[id].0@);
    }
}

/// The number of bits set in a word.
pub open spec fn popcount(x: u64) -> nat
    decreases x,
{
    if x == 0 {
        0
    } else {
        (x % 2) as nat + popcount(x / 2)
    }
}

/// The number of bits set in a word, as `u64::count_ones` counts them.
pub fn count_ones(x: u64) -> (r: u32)
    ensures
        r == popcount(x),
        r <= 64,
{
    let mut y: u64 = x;
    let mut c: u32 = 0;
    let mut i: u64 = 0;
    assert(x <= (0xFFFF_FFFF_FFFF_FFFFu64 >> 0u64)) by (bit_vector);
    while i < 64
        invariant
            i <= 64,
            c <= i,
            c + popcount(y) == popcount(x),
            y <= (0xFFFF_FFFF_FFFF_FFFFu64 >> i),
        decreases 64 - i,
    {
        assert(y & 1 == y % 2 && y >> 1 == y / 2) by (bit_vector);
        assert(y <= (0xFFFF_FFFF_FFFF_FFFFu64 >> i) && i < 64 ==> (y >> 1) <= (0xFFFF_FFFF_FFFF_FFFFu64
            >> ((i + 1) as u64))) by (bit_vector);
        if y > 0 {
            assert(popcount(y) == (y % 2) as nat + popcount(y / 2));
        }
        c = c + (y & 1) as u32;
        y = y >> 1;
        i = i + 1;
    }
    assert(y <= (0xFFFF_FFFF_FFFF_FFFFu64 >> 64u64) ==> y == 0) by (bit_vector);
    c
}

/// How many of the first `n` of `s` are in `b`.
pub open spec fn prefix_hits(s: Seq<usize>, n: int, b: Set<usize>) -> nat
    decreases n,
{
    if n <= 0 {
        0
    } else {
        prefix_hits(s, n - 1, b) + if b.contains(s[n - 1]) {
            1nat
        } else {
            0nat
        }
    }
}

/// Without repeats, the first `n` of `s` that are in `b` are as many as the set they make
/// shares with `b`.
proof fn lemma_prefix_hits(s: Seq<usize>, n: int, b: Set<usize>)
    requires
        s.no_duplicates(),
        0 <= n <= s.len(),
    ensures
        prefix_hits(s, n, b) == s.take(n).to_set().intersect(b).len(),
    decreases n,
{
    broadcast use vstd::set_lib::group_set_lib_default;

    if n == 0 {
        assert(s.take(0).to_set().intersect(b) =~= Set::<usize>::empty());
    } else {
        lemma_prefix_hits(s, n - 1, b);
        let before = s.take(n - 1).to_set();
        let x = s[n - 1];
        assert(s.take(n).to_set() =~= before.insert(x)) by {
            assert forall|y: usize| s.take(n).to_set().contains(y) <==> before.insert(x).contains(y) by {
                if s.take(n).to_set().contains(y) {
                    let i = choose|i: int| 0 <= i < n && #[trigger] s.take(n)[i] == y;
                    if i < n - 1 {
                        assert(s.take(n - 1)[i] == y);
                    }
                }
                if before.contains(y) {
                    let i = choose|i: int| 0 <= i < n - 1 && #[trigger] s.take(n - 1)[i] == y;
                    assert(s.take(n)[i] == y);
                }
                if y == x {
                    assert(s.take(n)[n - 1] == y);
                }
            }
        }
        assert(!before.contains(x)) by {
            if before.contains(x) {
                let i = choose|i: int| 0 <= i < n - 1 && #[trigger] s.take(n - 1)[i] == x;
                assert(s[i] == s[n - 1]);
            }
        }
        vstd::seq_lib::seq_to_set_is_finite(s.take(n - 1));
        if b.contains(x) {
            assert(before.insert(x).intersect(b) =~= before.intersect(b).insert(x));
        } else {
            assert(before.insert(x).intersect(b) =~= before.intersect(b));
        }
    }
}

/// The number of bits set in a sequence of words.
pub open spec fn bits_set(w: Seq<u64>) -> nat
    decreases w.len(),
{
    if w.len() == 0 {
        0
    } else {
        bits_set(w.drop_last()) + popcount(w.last())
    }
}

/// The number of bits set in both of two sequences of words, word by word, over the first
/// `n` words.
pub open spec fn bits_shared(a: Seq<u64>, b: Seq<u64>, n: int) -> nat
    decreases n,
{
    if n <= 0 {
        0
    } else {
        bits_shared(a, b, n - 1) + popcount(a[n - 1] & b[n - 1])
    }
}

/// The words of document `d`'s bitfield, `wc` words per document.
pub open spec fn doc_words(bits: Seq<u64>, d: int, wc: int) -> Seq<u64> {
    bits.subrange(d * wc, d * wc + wc)
}

/// The query bitfield of some terms: for each that has an ID, the bit of the ID wrapped to
/// the bitfield is set.
pub open spec fn query_bits<K>(terms: Seq<K>, ids: Map<K, usize>, bc: usize, wc: usize) -> Seq<u64>
    decreases terms.len(),
{
    if terms.len() == 0 {
        Seq::new(wc as nat, |_i: int| 0u64)
    } else {
        let prev = query_bits(terms.drop_last(), ids, bc, wc);
        if ids.contains_key(terms.last()) {
            let (w, b) = word_bit((ids[terms.last()] % bc) as int);
            prev.update(w, prev[w] | (1u64 << (b as u64)))
        } else {
            prev
        }
    }
}

/// The IDs of those of the terms that have one.
pub open spec fn known_ids<K>(terms: Seq<K>, ids: Map<K, usize>) -> Set<usize> {
    Set::new(|t: usize| exists|j: int| 0 <= j < terms.len() && ids.contains_key(terms[j]) && ids[terms[j]] == t)
}

/// The number of bits set in the words.
pub fn count_bits(words: &[u64]) -> (r: u32)
    requires
        64 * words@.len() <= u32::MAX,
    ensures
        r == bits_set(words@),
{
    let mut total: u32 = 0;
    let mut k: usize = 0;
    while k < words.len()
        invariant
            k <= words@.len(),
            64 * words@.len() <= u32::MAX,
            total == bits_set(words@.take(k as int)),
            total <= 64 * k,
        decreases words@.len() - k,
    {
        assert(words@.take(k + 1).drop_last() =~= words@.take(k as int));
        let c = count_ones(words[k]);
        total = total + c;
        k += 1;
    }
    assert(words@.take(words@.len() as int) =~= words@);
    total
}

/// Some group has type `t` and holds value `v`.
pub open spec fn is_known_feature(groups: Seq<(String, Vec<String>)>, t: Seq<char>, v: Seq<char>) -> bool {
    exists|i: int| 0 <= i < groups.len() && (#[trigger] groups[i]).0@ == t && string_texts(
        groups[i].1@,
    ).contains(v)
}

/// Law: every facet of a set of documents is a known feature: its type is one of the grouped
/// types, and its value is among that type's values.
pub proof fn law_facets_are_known_features(
    names: Map<usize, (String, String)>,
    ids: Seq<usize>,
    exact: Seq<Set<usize>>,
    facets: Seq<(String, Vec<(String, u32)>)>,
    groups: Seq<(String, Vec<String>)>,
)
    requires
        facets_hold(names, ids, exact, facets),
        features_grouped(names, groups),
    ensures
        forall|i: int, k: int|
            #![trigger facets[i].1@[k]]
            0 <= i < facets.len() && 0 <= k < facets[i].1@.len() ==> is_known_feature(
                groups,
                facets[i].0@,
                facets[i].1@[k].0@,
            ),
{
    assert forall|i: int, k: int|
        #![trigger facets[i].1@[k]]
        0 <= i < facets.len() && 0 <= k < facets[i].1@.len() implies is_known_feature(
            groups,
            facets[i].0@,
            facets[i].1@[k].0@,
        ) by {
        let t = facets[i].0@;
        let v = facets[i].1@[k].0@;
        assert(is_facet(names, ids, exact, t, v, facets[i].1@[k].1));
        let id = choose|id: usize|
            #[trigger] names.contains_key(id) && names[id].0@ == t && names[id].1@ == v
                && facets[i].1@[k].1 == term_count_in(ids, exact, id) && facets[i].1@[k].1 > 0;
        assert(names.contains_key(id));
        let g = choose|g: int|
            0 <= g < groups.len() && (#[trigger] groups[g]).0@ == names[id].0@ && string_texts(
                groups[g].1@,
            ).contains(names[id].1@);
        assert(groups[g].0@ == t);
    }
}

/// The number of intervals in each term of the interval-window model.
pub const INTERVAL_WINDOW_SIZE: usize = 5;

/// The windows of five consecutive intervals of a sequence, in order.
pub open spec fn interval_windows(s: Seq<i16>) -> Seq<Seq<i16>> {
    if s.len() < 5 {
        seq![]
    } else {
        Seq::new((s.len() - 4) as nat, |k: int| s.subrange(k, k + 5))
    }
}

/// The term IDs of the windows that a term map names.
pub open spec fn window_ids(terms: Map<[i16; 5], usize>, windows: Seq<Seq<i16>>) -> Set<usize> {
    Set::new(
        |t: usize|
            exists|w: [i16; 5]|
                #[trigger] terms.contains_key(w) && windows.contains(w@) && terms[w] == t,
    )
}

/// The term IDs of the first `n` terms of a sequence.
pub open spec fn prefix_ids(terms: Map<[i16; 5], usize>, ws: Seq<[i16; 5]>, n: int) -> Set<usize> {
    Set::new(|t: usize| exists|j: int| 0 <= j < n && terms[#[trigger] ws[j]] == t)
}

/// A binary vector space model whose terms are windows of consecutive intervals.
pub struct IntervalWindowBinaryVSM {
    pub vsm: BinaryVSM<[i16; 5]>,
}

impl IntervalWindowBinaryVSM {
    pub fn new(size: usize, top_id: usize) -> (r: IntervalWindowBinaryVSM)
        requires
            size > 0,
            (size / 64 + 1) * (top_id + 1) <= usize::MAX,
        ensures
            r.vsm.wf(),
            r.vsm.terms() == Map::<[i16; 5], usize>::empty(),
            r.vsm.next_term_id() == 0,
            r.vsm.top_id() == top_id,
            r.vsm.bit_capacity() == size,
            r.vsm.exact_terms() == Seq::new((top_id + 1) as nat, |_d: int| Set::<usize>::empty()),
    {
        IntervalWindowBinaryVSM { vsm: BinaryVSM::new(size, top_id) }
    }

    /// The terms of an interval sequence: each window of five consecutive intervals.
    pub fn intervals_to_terms(interval_seq: &[i16]) -> (r: Vec<[i16; 5]>)
        ensures
            r@.map_values(|w: [i16; 5]| w@) == interval_windows(interval_seq@),
    {
        let mut terms: Vec<[i16; 5]> = Vec::new();
        if interval_seq.len() < INTERVAL_WINDOW_SIZE {
            assert(terms@.map_values(|w: [i16; 5]| w@) =~= interval_windows(interval_seq@));
            return terms;
        }
        let count = interval_seq.len() - 4;
        let mut k: usize = 0;
        while k < count
            invariant
                count == interval_seq@.len() - 4,
                k <= count,
                terms@.len() == k,
                forall|j: int| 0 <= j < k ==> (#[trigger] terms@[j])@ == interval_seq@.subrange(j, j + 5),
            decreases count - k,
        {
            let window_arr: [i16; 5] = [
                interval_seq[k],
                interval_seq[k + 1],
                interval_seq[k + 2],
                interval_seq[k + 3],
                interval_seq[k + 4],
            ];
            assert(window_arr@ =~= interval_seq@.subrange(k as int, k + 5));
            terms.push(window_arr);
            k += 1;
        }
        assert(terms@.map_values(|w: [i16; 5]| w@) =~= interval_windows(interval_seq@));
        terms
    }

    /// Add the windows of an interval sequence to a tune's document.
    pub fn add(&mut self, tune_id: usize, interval_seq: &Vec<i16>)
        requires
            old(self).vsm.wf(),
        ensures
            final(self).vsm.wf(),
            final(self).vsm.top_id() == old(self).vsm.top_id(),
            final(self).vsm.bit_capacity() == old(self).vsm.bit_capacity(),
            final(self).vsm.next_term_id() <= old(self).vsm.next_term_id() + interval_seq@.len(),
            tune_id > old(self).vsm.top_id() ==> final(self).vsm.terms() == old(self).vsm.terms(),
            final(self).vsm.exact_terms().len() == old(self).vsm.exact_terms().len(),
            forall|d: int| 0 <= d < old(self).vsm.exact_terms().len() && d != tune_id
                ==> #[trigger] final(self).vsm.exact_terms()[d] == old(self).vsm.exact_terms()[d],
            tune_id <= old(self).vsm.top_id() ==> old(self).vsm.exact_terms()[tune_id as int].subset_of(
                final(self).vsm.exact_terms()[tune_id as int],
            ),
            obeys_key_model::<[i16; 5]>() ==> forall|w: [i16; 5]|
                #[trigger] old(self).vsm.terms().contains_key(w) ==> final(self).vsm.terms().contains_key(w)
                    && final(self).vsm.terms()[w] == old(self).vsm.terms()[w],
            tune_id <= old(self).vsm.top_id() && obeys_key_model::<[i16; 5]>() ==> forall|w: [i16; 5]|
                #![trigger final(self).vsm.terms().contains_key(w)]
                interval_windows(interval_seq@).contains(w@) ==> final(self).vsm.terms().contains_key(w)
                    && final(self).vsm.exact_terms()[tune_id as int].contains(
                    final(self).vsm.terms()[w],
                ),
            tune_id <= old(self).vsm.top_id() && obeys_key_model::<[i16; 5]>()
                ==> final(self).vsm.exact_terms()[tune_id as int]
                == old(self).vsm.exact_terms()[tune_id as int].union(
                window_ids(final(self).vsm.terms(), interval_windows(interval_seq@)),
            ),
            obeys_key_model::<[i16; 5]>() ==> forall|w: [i16; 5]|
                #[trigger] final(self).vsm.terms().contains_key(w) ==> old(self).vsm.terms().contains_key(
                    w,
                ) || interval_windows(interval_seq@).contains(w@),
            interval_seq@.len() < 5 ==> final(self).vsm == old(self).vsm,
    {
        let terms = IntervalWindowBinaryVSM::intervals_to_terms(interval_seq.as_slice());
        let ghost windows = interval_windows(interval_seq@);
        let ghost start = self.vsm.next_term_id();
        for term in it: terms
            invariant
                it.seq().map_values(|w: [i16; 5]| w@) == windows,
                windows == interval_windows(interval_seq@),
                windows.len() <= interval_seq@.len(),
                start == old(self).vsm.next_term_id(),
                self.vsm.wf(),
                self.vsm.top_id() == old(self).vsm.top_id(),
                self.vsm.bit_capacity() == old(self).vsm.bit_capacity(),
                self.vsm.next_term_id() <= start + it.index(),
                tune_id > old(self).vsm.top_id() ==> self.vsm.terms() == old(self).vsm.terms(),
                self.vsm.exact_terms().len() == old(self).vsm.exact_terms().len(),
                forall|d: int| 0 <= d < old(self).vsm.exact_terms().len() && d != tune_id
                    ==> #[trigger] self.vsm.exact_terms()[d] == old(self).vsm.exact_terms()[d],
                tune_id <= old(self).vsm.top_id() ==> old(self).vsm.exact_terms()[tune_id as int].subset_of(
                    self.vsm.exact_terms()[tune_id as int],
                ),
                obeys_key_model::<[i16; 5]>() ==> forall|w: [i16; 5]|
                    #[trigger] old(self).vsm.terms().contains_key(w) ==> self.vsm.terms().contains_key(w)
                        && self.vsm.terms()[w] == old(self).vsm.terms()[w],
                tune_id <= old(self).vsm.top_id() && obeys_key_model::<[i16; 5]>() ==> forall|j: int|
                    0 <= j < it.index() ==> self.vsm.terms().contains_key(#[trigger] it.seq()[j])
                        && self.vsm.exact_terms()[tune_id as int].contains(
                        self.vsm.terms()[it.seq()[j]],
                    ),
                tune_id <= old(self).vsm.top_id() && obeys_key_model::<[i16; 5]>() ==> self.vsm.exact_terms()[tune_id as int]
                    == old(self).vsm.exact_terms()[tune_id as int].union(
                    prefix_ids(self.vsm.terms(), it.seq(), it.index() as int),
                ),
                obeys_key_model::<[i16; 5]>() ==> forall|w: [i16; 5]|
                    #[trigger] self.vsm.terms().contains_key(w) ==> old(self).vsm.terms().contains_key(
                        w,
                    ) || exists|j: int| 0 <= j < it.index() && it.seq()[j] == w,
                it.index() == 0 ==> self.vsm == old(self).vsm,
        {
            let ghost before = self.vsm.terms();
            let ghost before_exact = self.vsm.exact_terms();
            let ghost n = it.index();
            self.vsm.add(tune_id, term);
            proof {
                if tune_id <= old(self).vsm.top_id() && obeys_key_model::<[i16; 5]>() {
                    let after = self.vsm.terms();
                    assert(it.seq()[n as int] == term);
                    assert forall|j: int| 0 <= j < n implies after[#[trigger] it.seq()[j]]
                        == before[it.seq()[j]] by {
                        assert(before.contains_key(it.seq()[j]));
                    }
                    assert(prefix_ids(after, it.seq(), n + 1) =~= prefix_ids(before, it.seq(), n)
                        .insert(after[term])) by {
                        assert forall|t: usize| prefix_ids(after, it.seq(), n + 1).contains(t)
                            implies prefix_ids(before, it.seq(), n).insert(after[term]).contains(t) by {
                            let j = choose|j: int| 0 <= j < n + 1 && after[#[trigger] it.seq()[j]] == t;
                            if j < n {
                                assert(before[it.seq()[j]] == t);
                            }
                        }
                        assert forall|t: usize| prefix_ids(before, it.seq(), n).insert(after[term]).contains(t)
                            implies prefix_ids(after, it.seq(), n + 1).contains(t) by {
                            if t == after[term] {
                                assert(after[it.seq()[n as int]] == t);
                            } else {
                                let j = choose|j: int| 0 <= j < n && before[#[trigger] it.seq()[j]] == t;
                                assert(after[it.seq()[j]] == t);
                            }
                        }
                    }
                }
                if obeys_key_model::<[i16; 5]>() {
                    assert(it.seq()[n as int] == term);
                    assert forall|w: [i16; 5]| #[trigger] self.vsm.terms().contains_key(w) implies
                        old(self).vsm.terms().contains_key(w) || exists|j: int| 0 <= j < n + 1 && it.seq()[j] == w by {
                        if w != term && !old(self).vsm.terms().contains_key(w) {
                            if tune_id <= old(self).vsm.top_id() {
                                assert(before.contains_key(w));
                            }
                            let j = choose|j: int| 0 <= j < n && it.seq()[j] == w;
                            assert(0 <= j < n + 1 && it.seq()[j] == w);
                        }
                    }
                }
            }
        }
        proof {
            if obeys_key_model::<[i16; 5]>() {
                assert forall|w: [i16; 5]| #[trigger] self.vsm.terms().contains_key(w) implies
                    old(self).vsm.terms().contains_key(w) || windows.contains(w@) by {
                    if !old(self).vsm.terms().contains_key(w) {
                        let j = choose|j: int| 0 <= j < terms@.len() && terms@[j] == w;
                        assert(windows[j] == w@);
                    }
                }
            }
            if tune_id <= old(self).vsm.top_id() && obeys_key_model::<[i16; 5]>() {
                let fin = self.vsm.terms();
                assert(prefix_ids(fin, terms@, terms@.len() as int) =~= window_ids(fin, windows)) by {
                    assert forall|t: usize| window_ids(fin, windows).contains(t) implies prefix_ids(
                        fin,
                        terms@,
                        terms@.len() as int,
                    ).contains(t) by {
                        let w = choose|w: [i16; 5]| #[trigger] fin.contains_key(w) && windows.contains(w@)
                            && fin[w] == t;
                        let j = choose|j: int| 0 <= j < windows.len() && windows[j] == w@;
                        assert(terms@[j]@ == w@);
                        assert(terms@[j] =~= w);
                        assert(fin[terms@[j]] == t);
                    }
                    assert forall|t: usize| prefix_ids(fin, terms@, terms@.len() as int).contains(t)
                        implies window_ids(fin, windows).contains(t) by {
                        let j = choose|j: int| 0 <= j < terms@.len() && fin[#[trigger] terms@[j]] == t;
                        let w = terms@[j];
                        assert(fin.contains_key(w));
                        assert(windows[j] == w@);
                        assert(windows.contains(w@));
                    }
                }
                assert forall|w: [i16; 5]| #![trigger self.vsm.terms().contains_key(w)]
                    windows.contains(w@) implies self.vsm.terms().contains_key(w)
                    && self.vsm.exact_terms()[tune_id as int].contains(self.vsm.terms()[w]) by {
                    let j = choose|j: int| 0 <= j < windows.len() && windows[j] == w@;
                    assert(terms@[j]@ == w@);
                    assert(terms@[j] =~= w);
                }
            }
        }
    }
}

/// The texts of strings.
pub open spec fn string_texts(v: Seq<String>) -> Seq<Seq<char>> {
    v.map_values(|s: String| s@)
}

/// Some named term is a feature of this type and value.
pub open spec fn is_feature_term(names: Map<usize, (String, String)>, t: Seq<char>, v: Seq<char>) -> bool {
    exists|id: usize| #[trigger] names.contains_key(id) && names[id].0@ == t && names[id].1@ == v
}

/// The features of the named terms grouped by type: each type once, with its values in order,
/// and every value of every term and nothing else.
pub open spec fn features_grouped(
    names: Map<usize, (String, String)>,
    groups: Seq<(String, Vec<String>)>,
) -> bool {
    &&& forall|i: int, j: int|
        0 <= i < j < groups.len() ==> (#[trigger] groups[i]).0@ != (#[trigger] groups[j]).0@
    &&& forall|i: int|
        0 <= i < groups.len() ==> (#[trigger] groups[i]).1@.len() > 0 && texts_sorted(
            string_texts(groups[i].1@),
        )
    &&& forall|i: int, k: int|
        #![trigger groups[i].1@[k]]
        0 <= i < groups.len() && 0 <= k < groups[i].1@.len() ==> is_feature_term(
            names,
            groups[i].0@,
            groups[i].1@[k]@,
        )
    &&& forall|id: usize| #[trigger] names.contains_key(id) ==> exists|i: int|
        0 <= i < groups.len() && (#[trigger] groups[i]).0@ == names[id].0@ && string_texts(
            groups[i].1@,
        ).contains(names[id].1@)
}

/// One of the first `m` (type, value) pairs is (`t`, `v`).
pub open spec fn pair_in(pt: Seq<Seq<char>>, pv: Seq<Seq<char>>, m: int, t: Seq<char>, v: Seq<char>) -> bool {
    exists|q: int| 0 <= q < m && pt[q] == t && pv[q] == v
}

/// The group of type `t` holds value `v`.
pub open spec fn in_group(tv: Seq<Seq<char>>, vv: Seq<Seq<Seq<char>>>, t: Seq<char>, v: Seq<char>) -> bool {
    exists|i: int| 0 <= i < tv.len() && tv[i] == t && vv[i].contains(v)
}

/// Types `tv` with their values `vv`, grouped from the first `m` of the (type, value) pairs
/// `pt`, `pv`: each type once, its values non-empty and in order, each value from a pair of
/// its type, and each of those pairs present.
pub open spec fn groups_hold(
    pt: Seq<Seq<char>>,
    pv: Seq<Seq<char>>,
    m: int,
    tv: Seq<Seq<char>>,
    vv: Seq<Seq<Seq<char>>>,
) -> bool {
    &&& tv.len() == vv.len()
    &&& forall|i: int, j: int| 0 <= i < j < tv.len() ==> #[trigger] tv[i] != #[trigger] tv[j]
    &&& forall|i: int| 0 <= i < vv.len() ==> (#[trigger] vv[i]).len() > 0 && texts_sorted(vv[i])
    &&& forall|i: int, k: int|
        #![trigger vv[i][k]]
        0 <= i < vv.len() && 0 <= k < vv[i].len() ==> pair_in(pt, pv, m, tv[i], vv[i][k])
    &&& forall|q: int| 0 <= q < m ==> in_group(tv, vv, #[trigger] pt[q], pv[q])
}

/// A pair whose type has a group already joins it.
proof fn lemma_groups_join(
    pt: Seq<Seq<char>>,
    pv: Seq<Seq<char>>,
    m: int,
    tv: Seq<Seq<char>>,
    vv: Seq<Seq<Seq<char>>>,
    g: int,
    pos: int,
)
    requires
        groups_hold(pt, pv, m, tv, vv),
        0 <= m < pt.len(),
        pt.len() == pv.len(),
        0 <= g < tv.len(),
        tv[g] == pt[m],
        0 <= pos <= vv[g].len(),
        texts_sorted(vv[g].insert(pos, pv[m])),
    ensures
        groups_hold(pt, pv, m + 1, tv, vv.update(g, vv[g].insert(pos, pv[m]))),
{
    let vv2 = vv.update(g, vv[g].insert(pos, pv[m]));
    assert forall|i: int, k: int|
        #![trigger vv2[i][k]]
        0 <= i < vv2.len() && 0 <= k < vv2[i].len() implies pair_in(pt, pv, m + 1, tv[i], vv2[i][k]) by {
        if i != g {
            assert(vv2[i] == vv[i]);
            assert(pair_in(pt, pv, m, tv[i], vv[i][k]));
        } else if k < pos {
            assert(vv2[i][k] == vv[i][k]);
            assert(pair_in(pt, pv, m, tv[i], vv[i][k]));
        } else if k == pos {
            assert(vv2[i][k] == pv[m]);
        } else {
            assert(vv2[i][k] == vv[i][k - 1]);
            assert(pair_in(pt, pv, m, tv[i], vv[i][k - 1]));
        }
    }
    assert forall|q: int| 0 <= q < m + 1 implies in_group(tv, vv2, #[trigger] pt[q], pv[q]) by {
        if q < m {
            assert(in_group(tv, vv, pt[q], pv[q]));
            let i = choose|i: int| 0 <= i < tv.len() && tv[i] == pt[q] && vv[i].contains(pv[q]);
            let k = choose|k: int| 0 <= k < vv[i].len() && vv[i][k] == pv[q];
            if i != g {
                assert(vv2[i] == vv[i]);
            } else if k < pos {
                assert(vv2[i][k] == pv[q]);
            } else {
                assert(vv2[i][k + 1] == pv[q]);
            }
        } else {
            assert(vv2[g][pos] == pv[q]);
        }
    }
    assert forall|i: int| 0 <= i < vv2.len() implies (#[trigger] vv2[i]).len() > 0 && texts_sorted(
        vv2[i],
    ) by {
        if i != g {
            assert(vv2[i] == vv[i]);
        }
    }
}

/// A pair whose type has no group yet starts one.
proof fn lemma_groups_start(
    pt: Seq<Seq<char>>,
    pv: Seq<Seq<char>>,
    m: int,
    tv: Seq<Seq<char>>,
    vv: Seq<Seq<Seq<char>>>,
)
    requires
        groups_hold(pt, pv, m, tv, vv),
        0 <= m < pt.len(),
        pt.len() == pv.len(),
        forall|i: int| 0 <= i < tv.len() ==> tv[i] != pt[m],
    ensures
        groups_hold(pt, pv, m + 1, tv.push(pt[m]), vv.push(seq![pv[m]])),
{
    let tv2 = tv.push(pt[m]);
    let vv2 = vv.push(seq![pv[m]]);
    assert forall|i: int, k: int|
        #![trigger vv2[i][k]]
        0 <= i < vv2.len() && 0 <= k < vv2[i].len() implies pair_in(pt, pv, m + 1, tv2[i], vv2[i][k]) by {
        if i < vv.len() {
            assert(vv2[i] == vv[i]);
            assert(tv2[i] == tv[i]);
            assert(pair_in(pt, pv, m, tv[i], vv[i][k]));
        } else {
            assert(tv2[i] == pt[m]);
            assert(vv2[i][k] == pv[m]);
        }
    }
    assert forall|q: int| 0 <= q < m + 1 implies in_group(tv2, vv2, #[trigger] pt[q], pv[q]) by {
        if q < m {
            assert(in_group(tv, vv, pt[q], pv[q]));
            let i = choose|i: int| 0 <= i < tv.len() && tv[i] == pt[q] && vv[i].contains(pv[q]);
            assert(tv2[i] == tv[i]);
            assert(vv2[i] == vv[i]);
        } else {
            assert(tv2[tv.len() as int] == pt[q]);
            assert(vv2[tv.len() as int][0] == pv[q]);
        }
    }
    assert forall|i: int, j: int| 0 <= i < j < tv2.len() implies #[trigger] tv2[i] != #[trigger] tv2[j] by {
        if j == tv.len() {
            assert(tv2[i] == tv[i]);
        } else {
            assert(tv2[i] == tv[i] && tv2[j] == tv[j]);
        }
    }
    assert forall|i: int| 0 <= i < vv2.len() implies (#[trigger] vv2[i]).len() > 0 && texts_sorted(
        vv2[i],
    ) by {
        if i < vv.len() {
            assert(vv2[i] == vv[i]);
        }
    }
}

/// Group the values of (type, value) pairs by type, the values of each type in order.
fn group_by_type(pair_types: &Vec<Vec<char>>, pair_values: &Vec<Vec<char>>) -> (r: (
    Vec<Vec<char>>,
    Vec<Vec<Vec<char>>>,
))
    requires
        pair_types@.len() == pair_values@.len(),
    ensures
        groups_hold(
            char_texts(pair_types@),
            char_texts(pair_values@),
            pair_types@.len() as int,
            char_texts(r.0@),
            r.1@.map_values(|v: Vec<Vec<char>>| char_texts(v@)),
        ),
{
    let ghost pt = char_texts(pair_types@);
    let ghost pv = char_texts(pair_values@);
    let mut types: Vec<Vec<char>> = Vec::new();
    let mut values: Vec<Vec<Vec<char>>> = Vec::new();
    let mut m: usize = 0;
    assert(char_texts(types@) =~= Seq::<Seq<char>>::empty());
    assert(values@.map_values(|v: Vec<Vec<char>>| char_texts(v@)) =~= Seq::<Seq<Seq<char>>>::empty());
    while m < pair_types.len()
        invariant
            m <= pair_types@.len(),
            pair_types@.len() == pair_values@.len(),
            pt == char_texts(pair_types@),
            pv == char_texts(pair_values@),
            groups_hold(
                pt,
                pv,
                m as int,
                char_texts(types@),
                values@.map_values(|v: Vec<Vec<char>>| char_texts(v@)),
            ),
        decreases pair_types@.len() - m,
    {
        let ghost tv = char_texts(types@);
        let ghost vv = values@.map_values(|v: Vec<Vec<char>>| char_texts(v@));
        let ty = &pair_types[m];
        let value = pair_values[m].clone();
        assert(ty@ == pt[m as int]);
        assert(value@ == pv[m as int]);
        // Find the group of this type.
        let mut g: usize = 0;
        while g < types.len() && !texts_equal(&types[g], ty)
            invariant
                g <= types@.len(),
                tv == char_texts(types@),
                ty@ == pt[m as int],
                forall|i: int| 0 <= i < g ==> tv[i] != pt[m as int],
            decreases types@.len() - g,
        {
            g += 1;
        }
        if g < types.len() {
            let mut vals: Vec<Vec<char>> = Vec::new();
            std::mem::swap(&mut vals, &mut values[g]);
            assert(char_texts(vals@) == vv[g as int]);
            let pos = insert_sorted(&mut vals, value);
            let ghost joined = char_texts(vals@);
            values.set(g, vals);
            proof {
                lemma_groups_join(pt, pv, m as int, tv, vv, g as int, pos as int);
                assert(values@.map_values(|v: Vec<Vec<char>>| char_texts(v@)) =~= vv.update(
                    g as int,
                    vv[g as int].insert(pos as int, pv[m as int]),
                ));
            }
        } else {
            let new_type = ty.clone();
            types.push(new_type);
            let mut vals: Vec<Vec<char>> = Vec::new();
            vals.push(value);
            assert(char_texts(vals@) =~= seq![pv[m as int]]);
            values.push(vals);
            proof {
                lemma_groups_start(pt, pv, m as int, tv, vv);
                assert(char_texts(types@) =~= tv.push(pt[m as int]));
                assert(values@.map_values(|v: Vec<Vec<char>>| char_texts(v@)) =~= vv.push(
                    seq![pv[m as int]],
                ));
            }
        }
        m += 1;
    }
    (types, values)
}

/// Groups built from the (type, value) pairs of the named terms group the features.
proof fn lemma_groups_are_features(
    names: Map<usize, (String, String)>,
    pt: Seq<Seq<char>>,
    pv: Seq<Seq<char>>,
    tv: Seq<Seq<char>>,
    vv: Seq<Seq<Seq<char>>>,
    groups: Seq<(String, Vec<String>)>,
)
    requires
        pt.len() == pv.len(),
        forall|q: int| 0 <= q < pt.len() ==> is_feature_term(names, #[trigger] pt[q], pv[q]),
        forall|id: usize| #[trigger] names.contains_key(id) ==> pair_in(
            pt,
            pv,
            pt.len() as int,
            names[id].0@,
            names[id].1@,
        ),
        groups_hold(pt, pv, pt.len() as int, tv, vv),
        groups.len() == tv.len(),
        forall|j: int| 0 <= j < groups.len() ==> (#[trigger] groups[j]).0@ == tv[j] && string_texts(
            groups[j].1@,
        ) == vv[j],
    ensures
        features_grouped(names, groups),
{
    assert forall|i: int, j: int| 0 <= i < j < groups.len() implies (#[trigger] groups[i]).0@
        != (#[trigger] groups[j]).0@ by {
        assert(tv[i] != tv[j]);
    }
    assert forall|i: int| 0 <= i < groups.len() implies (#[trigger] groups[i]).1@.len() > 0
        && texts_sorted(string_texts(groups[i].1@)) by {
        assert(vv[i].len() > 0);
    }
    assert forall|i: int, k: int|
        #![trigger groups[i].1@[k]]
        0 <= i < groups.len() && 0 <= k < groups[i].1@.len() implies is_feature_term(
            names,
            groups[i].0@,
            groups[i].1@[k]@,
        ) by {
        assert(string_texts(groups[i].1@) == vv[i]);
        assert(groups[i].1@[k]@ == vv[i][k]);
        assert(pair_in(pt, pv, pt.len() as int, tv[i], vv[i][k]));
        let q = choose|q: int| 0 <= q < pt.len() && pt[q] == tv[i] && pv[q] == vv[i][k];
        assert(is_feature_term(names, pt[q], pv[q]));
    }
    assert forall|id: usize| #[trigger] names.contains_key(id) implies exists|i: int|
        0 <= i < groups.len() && (#[trigger] groups[i]).0@ == names[id].0@ && string_texts(
            groups[i].1@,
        ).contains(names[id].1@) by {
        assert(pair_in(pt, pv, pt.len() as int, names[id].0@, names[id].1@));
        let q = choose|q: int| 0 <= q < pt.len() && pt[q] == names[id].0@ && pv[q] == names[id].1@;
        assert(in_group(tv, vv, pt[q], pv[q]));
        let j = choose|j: int| 0 <= j < tv.len() && tv[j] == pt[q] && vv[j].contains(pv[q]);
        assert(groups[j].0@ == names[id].0@);
    }
}

/// A binary vector space model whose terms are features: pairs of feature type and value.
pub struct FeaturesBinaryVSM {
    pub vsm: BinaryVSM<(String, String)>,
}

impl FeaturesBinaryVSM {
    pub fn new(size: usize, top_id: usize) -> (r: FeaturesBinaryVSM)
        requires
            size > 0,
            (size / 64 + 1) * (top_id + 1) <= usize::MAX,
        ensures
            r.vsm.wf(),
            r.vsm.terms() == Map::<(String, String), usize>::empty(),
            r.vsm.next_term_id() == 0,
            r.vsm.top_id() == top_id,
            r.vsm.bit_capacity() == size,
            r.vsm.exact_terms() == Seq::new((top_id + 1) as nat, |_d: int| Set::<usize>::empty()),
    {
        FeaturesBinaryVSM { vsm: BinaryVSM::new(size, top_id) }
    }

    /// Add a feature to a tune's document.
    pub fn add(&mut self, tune_id: usize, feature_type: String, value: String)
        requires
            old(self).vsm.wf(),
        ensures
            final(self).vsm.wf(),
            final(self).vsm.top_id() == old(self).vsm.top_id(),
            final(self).vsm.bit_capacity() == old(self).vsm.bit_capacity(),
            final(self).vsm.next_term_id() <= old(self).vsm.next_term_id() + 1,
            final(self).vsm.exact_terms().len() == old(self).vsm.exact_terms().len(),
            forall|d: int| 0 <= d < old(self).vsm.exact_terms().len() && d != tune_id
                ==> #[trigger] final(self).vsm.exact_terms()[d] == old(self).vsm.exact_terms()[d],
            tune_id <= old(self).vsm.top_id() ==> old(self).vsm.exact_terms()[tune_id as int].subset_of(
                final(self).vsm.exact_terms()[tune_id as int],
            ),
            tune_id > old(self).vsm.top_id() ==> final(self).vsm.terms() == old(self).vsm.terms(),
            tune_id <= old(self).vsm.top_id() && obeys_key_model::<(String, String)>() ==> {
                let t = if old(self).vsm.terms().contains_key((feature_type, value)) {
                    old(self).vsm.terms()[(feature_type, value)]
                } else {
                    old(self).vsm.next_term_id()
                };
                &&& final(self).vsm.terms() == old(self).vsm.terms().insert((feature_type, value), t)
                &&& final(self).vsm.exact_terms()[tune_id as int] == old(
                    self,
                ).vsm.exact_terms()[tune_id as int].insert(t)
            },
    {
        self.vsm.add(tune_id, (feature_type, value));
    }

    /// Feature types, values and counts among the documents `tune_ids`, for faceting: for each
    /// type, each of its values that any of them hold, with the number holding it, highest
    /// counts first.
    pub fn facet_features_for_resultset(&self, tune_ids: &Vec<usize>) -> (r: Vec<
        (String, Vec<(String, u32)>),
    >)
        requires
            self.vsm.wf(),
            tune_ids@.len() <= u32::MAX,
            forall|k: int| 0 <= k < tune_ids@.len() ==> #[trigger] tune_ids@[k] <= self.vsm.top_id(),
        ensures
            facets_hold(self.vsm.term_names(), tune_ids@, self.vsm.exact_terms(), r@),
    {
        broadcast use vstd::std_specs::hash::group_hash_axioms;

        let counts = self.vsm.term_counts(tune_ids);
        let ghost names = self.vsm.terms_i@;
        let n = self.vsm.next_term_id;
        // The terms, by ID, as (type, value).
        let mut pair_types: Vec<Vec<char>> = Vec::new();
        let mut pair_values: Vec<String> = Vec::new();
        let mut id: usize = 0;
        while id < n
            invariant
                id <= n,
                n == self.vsm.next_term_id,
                names == self.vsm.terms_i@,
                self.vsm.wf(),
                pair_types@.len() == id,
                pair_values@.len() == id,
                forall|q: int| 0 <= q < id ==> (#[trigger] pair_types@[q])@ == names[q as usize].0@
                    && pair_values@[q]@ == names[q as usize].1@,
            decreases n - id,
        {
            if let Some(term) = self.vsm.terms_i.get(&id) {
                pair_types.push(string_to_chars(term.0.as_str()));
                pair_values.push(term.1.clone());
            }
            id += 1;
        }
        let ghost pt = char_texts(pair_types@);
        let ghost pv = string_texts(pair_values@);
        let ghost cs = counts@;
        let (types, entries) = group_facets(&pair_types, &pair_values, &counts);
        let ghost tv = char_texts(types@);
        let ghost ev = entries@.map_values(|v: Vec<(String, u32)>| facet_texts(v@));
        // Each type with its entries.
        let mut results: Vec<(String, Vec<(String, u32)>)> = Vec::new();
        let mut i_exec: usize = 0;
        let ntypes = types.len();
        for group in it: entries
            invariant
                it.seq() == entries@,
                i_exec == it.index(),
                ntypes == types@.len(),
                it.seq().len() == types@.len(),
                tv == char_texts(types@),
                ev == it.seq().map_values(|v: Vec<(String, u32)>| facet_texts(v@)),
                facet_groups_hold(pt, pv, cs, pt.len() as int, tv, ev),
                results@.len() == it.index(),
                forall|j: int| 0 <= j < it.index() ==> (#[trigger] results@[j]).0@ == tv[j]
                    && facet_texts(results@[j].1@) == ev[j],
        {
            let ghost i = it.index() as int;
            assert(i_exec < ntypes);
            let key = string_from_chars(types[i_exec].as_slice());
            assert(facet_texts(group@) == ev[i]);
            results.push((key, group));
            i_exec += 1;
        }
        proof {
            assert forall|q: int| 0 <= q < pt.len() implies #[trigger] pt[q] == names[q as usize].0@
                && pv[q] == names[q as usize].1@ && cs[q] == term_count_in(
                tune_ids@,
                self.vsm.exact_terms(),
                q as usize,
            ) by {
                assert(pair_types@[q]@ == names[q as usize].0@);
                assert(pt[q] == pair_types@[q]@);
                assert(pv[q] == pair_values@[q]@);
                assert(cs[q] == counts@[q]);
            }
            lemma_facet_groups_are_facets(
                names,
                tune_ids@,
                self.vsm.exact_terms(),
                pt,
                pv,
                cs,
                tv,
                ev,
                results@,
            );
        }
        results
    }

    /// All known feature values, grouped by type, the values of each type in order.
    pub fn all_features(&self) -> (r: Vec<(String, Vec<String>)>)
        requires
            self.vsm.wf(),
        ensures
            features_grouped(self.vsm.term_names(), r@),
    {
        broadcast use vstd::std_specs::hash::group_hash_axioms;

        // The terms, by ID, as (type, value) texts.
        let mut pair_types: Vec<Vec<char>> = Vec::new();
        let mut pair_values: Vec<Vec<char>> = Vec::new();
        let ghost names = self.vsm.terms_i@;
        let n = self.vsm.next_term_id;
        let mut id: usize = 0;
        while id < n
            invariant
                id <= n,
                n == self.vsm.next_term_id,
                names == self.vsm.terms_i@,
                self.vsm.wf(),
                pair_types@.len() == id,
                pair_values@.len() == id,
                forall|q: int| 0 <= q < id ==> (#[trigger] pair_types@[q])@ == names[q as usize].0@
                    && pair_values@[q]@ == names[q as usize].1@,
            decreases n - id,
        {
            if let Some(term) = self.vsm.terms_i.get(&id) {
                pair_types.push(string_to_chars(term.0.as_str()));
                pair_values.push(string_to_chars(term.1.as_str()));
            }
            id += 1;
        }
        proof {
            assert forall|q: int| 0 <= q < pair_types@.len() implies is_feature_term(
                names,
                #[trigger] char_texts(pair_types@)[q],
                char_texts(pair_values@)[q],
            ) by {
                assert(names.contains_key(q as usize));
            }
            assert forall|i: usize| #[trigger] names.contains_key(i) implies pair_in(
                char_texts(pair_types@),
                char_texts(pair_values@),
                pair_types@.len() as int,
                names[i].0@,
                names[i].1@,
            ) by {
                assert(char_texts(pair_types@)[i as int] == names[i].0@);
                assert(char_texts(pair_values@)[i as int] == names[i].1@);
            }
        }
        let ghost pt = char_texts(pair_types@);
        let ghost pv = char_texts(pair_values@);
        let (types, values) = group_by_type(&pair_types, &pair_values);
        let ghost tv = char_texts(types@);
        let ghost vv = values@.map_values(|v: Vec<Vec<char>>| char_texts(v@));
        // Each type with its values.
        let mut results: Vec<(String, Vec<String>)> = Vec::new();
        let mut i: usize = 0;
        while i < types.len()
            invariant
                i <= types@.len(),
                tv == char_texts(types@),
                vv == values@.map_values(|v: Vec<Vec<char>>| char_texts(v@)),
                groups_hold(pt, pv, pt.len() as int, tv, vv),
                results@.len() == i,
                forall|j: int| 0 <= j < i ==> (#[trigger] results@[j]).0@ == tv[j] && string_texts(
                    results@[j].1@,
                ) == vv[j],
            decreases types@.len() - i,
        {
            let key = string_from_chars(types[i].as_slice());
            let group = &values[i];
            let mut vals: Vec<String> = Vec::new();
            let mut k: usize = 0;
            while k < group.len()
                invariant
                    k <= group@.len(),
                    string_texts(vals@) == char_texts(group@).take(k as int),
                decreases group@.len() - k,
            {
                let ghost before = vals@;
                let text = string_from_chars(group[k].as_slice());
                vals.push(text);
                assert(string_texts(vals@) =~= string_texts(before).push(group@[k as int]@));
                assert(char_texts(group@).take(k + 1) =~= char_texts(group@).take(k as int).push(
                    group@[k as int]@,
                ));
                k += 1;
            }
            assert(char_texts(group@).take(group@.len() as int) =~= char_texts(group@));
            assert(char_texts(group@) == vv[i as int]);
            results.push((key, vals));
            i += 1;
        }
        proof {
            lemma_groups_are_features(names, pt, pv, tv, vv, results@);
        }
        results
    }
}

} // verus!

//! The tree of split terminal panes: splitting a pane, removing one, listing
//! the panes in depth-first order and finding the neighbour of a pane in a
//! direction. Panes are identified by their entity ids; the layout weights of
//! an axis are all equal, so only the order of its members is kept.
use vstd::prelude::*;

verus! {

#[derive(Clone, Copy, Debug, PartialEq, Eq, Structural)]
pub enum Axis {
    Horizontal,
    Vertical,
}

#[derive(Clone, Copy, Debug, PartialEq, Eq, Structural)]
pub enum SplitDirection {
    Up,
    Down,
    Left,
    Right,
}

impl SplitDirection {
    pub open spec fn spec_axis(self) -> Axis {
        match self {
            SplitDirection::Up | SplitDirection::Down => Axis::Vertical,
            SplitDirection::Left | SplitDirection::Right => Axis::Horizontal,
        }
    }

    pub open spec fn spec_increasing(self) -> bool {
        self == SplitDirection::Down || self == SplitDirection::Right
    }

    /// The axis along which a split in this direction lays panes out.
    #[verifier::when_used_as_spec(spec_axis)]
    pub fn axis(self) -> (r: Axis)
        ensures
            r == self.spec_axis(),
    {
        match self {
            SplitDirection::Up | SplitDirection::Down => Axis::Vertical,
            SplitDirection::Left | SplitDirection::Right => Axis::Horizontal,
        }
    }

    /// Whether the new pane goes after the old one (down or right).
    #[verifier::when_used_as_spec(spec_increasing)]
    pub fn increasing(self) -> (r: bool)
        ensures
            r == self.spec_increasing(),
    {
        match self {
            SplitDirection::Down | SplitDirection::Right => true,
            _ => false,
        }
    }
}

/// A node of the pane tree: a single pane, or an axis of members laid out
/// side by side.
#[derive(Debug)]
pub enum Member {
    Pane(u64),
    Axis(PaneAxis),
}

#[derive(Debug)]
pub struct PaneAxis {
    pub axis: Axis,
    pub members: Vec<Member>,
}

/// A tree of split panes.
#[derive(Debug)]
pub struct PaneGroup {
    pub root: Member,
}

// ---------------------------------------------------------------------------
// specification
// ---------------------------------------------------------------------------

/// The panes of a member in depth-first order.
pub open spec fn panes_of(m: Member) -> Seq<u64>
    decreases m,
{
    match m {
        Member::Pane(p) => seq![p],
        Member::Axis(a) => panes_of_list(a.members@),
    }
}

/// The panes of a list of members, in order.
pub open spec fn panes_of_list(ms: Seq<Member>) -> Seq<u64>
    decreases ms,
{
    if ms.len() == 0 {
        Seq::empty()
    } else {
        panes_of_list(ms.subrange(0, ms.len() - 1)) + panes_of(ms[ms.len() - 1])
    }
}

/// Every axis has at least one member.
pub open spec fn axes_nonempty(m: Member) -> bool
    decreases m,
{
    match m {
        Member::Pane(_) => true,
        Member::Axis(a) => a.members@.len() >= 1 && axes_nonempty_list(a.members@),
    }
}

pub open spec fn axes_nonempty_list(ms: Seq<Member>) -> bool
    decreases ms,
{
    if ms.len() == 0 {
        true
    } else {
        axes_nonempty_list(ms.subrange(0, ms.len() - 1)) && axes_nonempty(ms[ms.len() - 1])
    }
}

/// Every axis has at least two members: the shape that splitting and
/// removing keep.
pub open spec fn well_formed(m: Member) -> bool
    decreases m,
{
    match m {
        Member::Pane(_) => true,
        Member::Axis(a) => a.members@.len() >= 2 && well_formed_list(a.members@),
    }
}

pub open spec fn well_formed_list(ms: Seq<Member>) -> bool
    decreases ms,
{
    if ms.len() == 0 {
        true
    } else {
        well_formed_list(ms.subrange(0, ms.len() - 1)) && well_formed(ms[ms.len() - 1])
    }
}

/// Index of the first occurrence of `x` in `s` (`s.len()` if absent).
pub open spec fn first_index(s: Seq<u64>, x: u64) -> int
    decreases s.len(),
{
    if s.len() == 0 {
        0
    } else if s[0] == x {
        0
    } else {
        1 + first_index(s.drop_first(), x)
    }
}

/// The pane list after inserting `new` next to the first occurrence of
/// `anchor`: after it when `after`, before it otherwise.
pub open spec fn insert_next_to(s: Seq<u64>, anchor: u64, new: u64, after: bool) -> Seq<u64> {
    s.insert(
        if after {
            first_index(s, anchor) + 1
        } else {
            first_index(s, anchor)
        },
        new,
    )
}

/// The pane list without the first occurrence of `x`.
pub open spec fn remove_first(s: Seq<u64>, x: u64) -> Seq<u64> {
    s.remove(first_index(s, x))
}

// ---------------------------------------------------------------------------
// sequence lemmas
// ---------------------------------------------------------------------------

pub(crate) proof fn lemma_first_index(s: Seq<u64>, x: u64)
    ensures
        0 <= first_index(s, x) <= s.len(),
        s.contains(x) <==> first_index(s, x) < s.len(),
        first_index(s, x) < s.len() ==> s[first_index(s, x)] == x,
        forall|k: int| 0 <= k < first_index(s, x) ==> s[k] != x,
    decreases s.len(),
{
    if s.len() > 0 && s[0] != x {
        lemma_first_index(s.drop_first(), x);
        if s.contains(x) {
            let k = choose|k: int| 0 <= k < s.len() && s[k] == x;
            assert(s.drop_first()[k - 1] == x);
        }
        if s.drop_first().contains(x) {
            let k = choose|k: int| 0 <= k < s.drop_first().len() && s.drop_first()[k] == x;
            assert(s[k + 1] == x);
        }
        assert forall|k: int| 0 <= k < first_index(s, x) implies s[k] != x by {
            if k > 0 {
                assert(s[k] == s.drop_first()[k - 1]);
            }
        }
    } else if s.len() > 0 {
        assert(s.contains(x) ==> s[0] == x);
    }
}

proof fn lemma_first_index_concat(a: Seq<u64>, b: Seq<u64>, x: u64)
    ensures
        !a.contains(x) ==> first_index(a + b, x) == a.len() + first_index(b, x),
        a.contains(x) ==> first_index(a + b, x) == first_index(a, x),
    decreases a.len(),
{
    if a.len() > 0 {
        lemma_first_index_concat(a.drop_first(), b, x);
        assert((a + b).drop_first() =~= a.drop_first() + b);
        if a[0] != x {
            if a.drop_first().contains(x) {
                let k = choose|k: int| 0 <= k < a.drop_first().len() && a.drop_first()[k] == x;
                assert(a[k + 1] == x);
            }
            if a.contains(x) {
                let k = choose|k: int| 0 <= k < a.len() && a[k] == x;
                assert(a.drop_first()[k - 1] == x);
            }
        } else {
            assert(a.contains(x));
        }
    } else {
        assert(a + b =~= b);
    }
}

proof fn lemma_panes_of_list_concat(a: Seq<Member>, b: Seq<Member>)
    ensures
        panes_of_list(a + b) == panes_of_list(a) + panes_of_list(b),
    decreases b.len(),
{
    if b.len() == 0 {
        assert(a + b =~= a);
        assert(panes_of_list(a) + panes_of_list(b) =~= panes_of_list(a));
    } else {
        let b0 = b.subrange(0, b.len() - 1);
        lemma_panes_of_list_concat(a, b0);
        assert((a + b).subrange(0, (a + b).len() - 1) =~= a + b0);
        assert((a + b)[(a + b).len() - 1] == b[b.len() - 1]);
        assert(panes_of_list(a + b) =~= panes_of_list(a) + panes_of_list(b));
    }
}

proof fn lemma_panes_of_single(m: Member)
    ensures
        panes_of_list(seq![m]) == panes_of(m),
{
    assert(seq![m].subrange(0, 0) =~= Seq::<Member>::empty());
    assert(seq![m][0] == m);
    assert(panes_of_list(Seq::<Member>::empty()) =~= Seq::<u64>::empty());
    assert(panes_of_list(seq![m]) =~= panes_of(m));
}

proof fn lemma_list_props_concat(a: Seq<Member>, b: Seq<Member>)
    ensures
        axes_nonempty_list(a + b) == (axes_nonempty_list(a) && axes_nonempty_list(b)),
        well_formed_list(a + b) == (well_formed_list(a) && well_formed_list(b)),
    decreases b.len(),
{
    if b.len() == 0 {
        assert(a + b =~= a);
    } else {
        let b0 = b.subrange(0, b.len() - 1);
        lemma_list_props_concat(a, b0);
        assert((a + b).subrange(0, (a + b).len() - 1) =~= a + b0);
        assert((a + b)[(a + b).len() - 1] == b[b.len() - 1]);
    }
}

proof fn lemma_list_props_single(m: Member)
    ensures
        axes_nonempty_list(seq![m]) == axes_nonempty(m),
        well_formed_list(seq![m]) == well_formed(m),
{
    assert(seq![m].subrange(0, 0) =~= Seq::<Member>::empty());
    assert(seq![m][0] == m);
    assert(axes_nonempty_list(Seq::<Member>::empty()));
    assert(well_formed_list(Seq::<Member>::empty()));
}

/// A list property of all members holds of each member.
proof fn lemma_list_props_index(ms: Seq<Member>, k: int)
    requires
        0 <= k < ms.len(),
    ensures
        axes_nonempty_list(ms) ==> axes_nonempty(ms[k]),
        well_formed_list(ms) ==> well_formed(ms[k]),
{
    lemma_list_props_concat(ms.subrange(0, k), ms.subrange(k, ms.len() as int));
    assert(ms =~= ms.subrange(0, k) + ms.subrange(k, ms.len() as int));
    let tail = ms.subrange(k, ms.len() as int);
    lemma_list_props_concat(seq![ms[k]], tail.drop_first());
    assert(tail =~= seq![ms[k]] + tail.drop_first());
    lemma_list_props_single(ms[k]);
}

proof fn lemma_panes_nonempty(m: Member)
    requires
        axes_nonempty(m),
    ensures
        panes_of(m).len() >= 1,
    decreases m,
{
    match m {
        Member::Pane(_) => {},
        Member::Axis(a) => {
            let ms = a.members@;
            let last = ms[ms.len() - 1];
            lemma_list_props_index(ms, ms.len() - 1);
            lemma_panes_nonempty(last);
        },
    }
}

/// A tree whose axes have at least two members has none that is empty.
pub proof fn lemma_well_formed_axes_nonempty(m: Member)
    requires
        well_formed(m),
    ensures
        axes_nonempty(m),
    decreases m,
{
    match m {
        Member::Pane(_) => {},
        Member::Axis(a) => {
            lemma_well_formed_axes_nonempty_list(a.members@);
        },
    }
}

proof fn lemma_well_formed_axes_nonempty_list(ms: Seq<Member>)
    requires
        well_formed_list(ms),
    ensures
        axes_nonempty_list(ms),
    decreases ms,
{
    if ms.len() > 0 {
        lemma_well_formed_axes_nonempty_list(ms.subrange(0, ms.len() - 1));
        lemma_well_formed_axes_nonempty(ms[ms.len() - 1]);
    }
}

/// Splitting a list of members into a prefix, one member and a suffix.
proof fn lemma_panes_around(ms: Seq<Member>, k: int)
    requires
        0 <= k < ms.len(),
    ensures
        panes_of_list(ms) == panes_of_list(ms.subrange(0, k)) + panes_of(ms[k])
            + panes_of_list(ms.subrange(k + 1, ms.len() as int)),
{
    let pre = ms.subrange(0, k);
    let post = ms.subrange(k + 1, ms.len() as int);
    assert(ms =~= pre + seq![ms[k]] + post);
    lemma_panes_of_list_concat(pre + seq![ms[k]], post);
    lemma_panes_of_list_concat(pre, seq![ms[k]]);
    lemma_panes_of_single(ms[k]);
}

// ---------------------------------------------------------------------------
// queries
// ---------------------------------------------------------------------------

impl Member {
    /// Appends the panes of this member to `out`, depth first.
    pub fn collect_panes(&self, out: &mut Vec<u64>)
        ensures
            final(out)@ == old(out)@ + panes_of(*self),
        decreases *self,
    {
        match self {
            Member::Pane(p) => {
                out.push(*p);
                assert(old(out)@ + panes_of(*self) =~= old(out)@.push(*p));
            },
            Member::Axis(a) => {
                let ghost start = out@;
                let mut k: usize = 0;
                while k < a.members.len()
                    invariant
                        *self == Member::Axis(*a),
                        k <= a.members@.len(),
                        out@ == start + panes_of_list(a.members@.subrange(0, k as int)),
                    decreases a.members@.len() - k,
                {
                    let ghost before = out@;
                    proof {
                        assert(decreases_to!(*self => (*self)->Axis_0));
                        assert(decreases_to!(*a => a.members));
                        assert(decreases_to!(a.members => a.members@));
                        assert(decreases_to!(a.members@ => a.members@[k as int]));
                    }
                    a.members[k].collect_panes(out);
                    proof {
                        let ms = a.members@;
                        assert(ms.subrange(0, k + 1).subrange(0, k as int) =~= ms.subrange(
                            0,
                            k as int,
                        ));
                        assert(ms.subrange(0, k + 1)[k as int] == ms[k as int]);
                    }
                    k = k + 1;
                }
                assert(a.members@.subrange(0, a.members@.len() as int) =~= a.members@);
            },
        }
    }

    /// Whether `pane` is one of this member's panes.
    pub fn contains(&self, pane: u64) -> (r: bool)
        ensures
            r == panes_of(*self).contains(pane),
        decreases *self,
    {
        match self {
            Member::Pane(p) => {
                assert(panes_of(*self) =~= seq![*p]);
                assert(seq![*p][0] == *p);
                *p == pane
            },
            Member::Axis(a) => {
                let mut k: usize = 0;
                while k < a.members.len()
                    invariant
                        *self == Member::Axis(*a),
                        k <= a.members@.len(),
                        !panes_of_list(a.members@.subrange(0, k as int)).contains(pane),
                    decreases a.members@.len() - k,
                {
                    let ms = &a.members;
                    proof {
                        lemma_panes_of_list_concat(ms@.subrange(0, k as int), seq![ms@[k as int]]);
                        lemma_panes_of_single(ms@[k as int]);
                        assert(ms@.subrange(0, k + 1) =~= ms@.subrange(0, k as int) + seq![
                            ms@[k as int],
                        ]);
                    }
                    proof {
                        assert(decreases_to!(*self => (*self)->Axis_0));
                        assert(decreases_to!(*a => a.members));
                        assert(decreases_to!(a.members => a.members@));
                        assert(decreases_to!(a.members@ => a.members@[k as int]));
                    }
                    if a.members[k].contains(pane) {
                        proof {
                            lemma_panes_around(a.members@, k as int);
                            let pre = panes_of_list(a.members@.subrange(0, k as int));
                            let mid = panes_of(a.members@[k as int]);
                            let j = choose|j: int| 0 <= j < mid.len() && mid[j] == pane;
                            assert(panes_of(*self) == panes_of_list(a.members@));
                            assert((pre + mid)[pre.len() + j] == pane);
                            assert(panes_of(*self)[pre.len() + j] == pane);
                        }
                        return true;
                    }
                    k = k + 1;
                }
                assert(a.members@.subrange(0, a.members@.len() as int) =~= a.members@);
                false
            },
        }
    }

    /// The first pane in depth-first order.
    pub fn first_pane(&self) -> (r: u64)
        requires
            axes_nonempty(*self),
        ensures
            panes_of(*self).len() >= 1,
            r == panes_of(*self)[0],
        decreases *self,
    {
        proof {
            lemma_panes_nonempty(*self);
        }
        match self {
            Member::Pane(p) => *p,
            Member::Axis(a) => {
                proof {
                    lemma_list_props_index(a.members@, 0);
                    lemma_panes_around(a.members@, 0);
                    lemma_panes_nonempty(a.members@[0]);
                    assert(a.members@.subrange(0, 0) =~= Seq::<Member>::empty());
                }
                a.members[0].first_pane()
            },
        }
    }

    /// The last pane in depth-first order.
    pub fn last_pane(&self) -> (r: u64)
        requires
            axes_nonempty(*self),
        ensures
            panes_of(*self).len() >= 1,
            r == panes_of(*self).last(),
        decreases *self,
    {
        proof {
            lemma_panes_nonempty(*self);
        }
        match self {
            Member::Pane(p) => *p,
            Member::Axis(a) => {
                let n = a.members.len();
                proof {
                    lemma_list_props_index(a.members@, n - 1);
                    lemma_panes_nonempty(a.members@[n - 1]);
                }
                a.members[n - 1].last_pane()
            },
        }
    }
}

// ---------------------------------------------------------------------------
// locating the member that holds a pane
// ---------------------------------------------------------------------------

/// Member `k` of `ms` is the first one whose panes include `pane`.
pub open spec fn is_first_holder(ms: Seq<Member>, k: int, pane: u64) -> bool {
    &&& 0 <= k < ms.len()
    &&& !panes_of_list(ms.subrange(0, k)).contains(pane)
    &&& panes_of(ms[k]).contains(pane)
}

/// The number of nodes of a member, which recursion into a child lowers.
spec fn member_size(m: Member) -> nat
    decreases m,
{
    match m {
        Member::Pane(_) => 1,
        Member::Axis(a) => 1 + members_size(a.members@),
    }
}

spec fn members_size(ms: Seq<Member>) -> nat
    decreases ms,
{
    if ms.len() == 0 {
        0
    } else {
        members_size(ms.subrange(0, ms.len() - 1)) + member_size(ms[ms.len() - 1])
    }
}

proof fn lemma_members_size_index(ms: Seq<Member>, k: int)
    requires
        0 <= k < ms.len(),
    ensures
        member_size(ms[k]) <= members_size(ms),
    decreases ms.len(),
{
    let n = ms.len();
    if k < n - 1 {
        let pre = ms.subrange(0, n - 1);
        lemma_members_size_index(pre, k);
        assert(pre[k] == ms[k]);
    }
}

/// Where the first `pane` of the list lies when member `k` is its first holder.
proof fn lemma_holder_facts(ms: Seq<Member>, k: int, pane: u64)
    requires
        is_first_holder(ms, k, pane),
    ensures
        panes_of_list(ms).contains(pane),
        first_index(panes_of_list(ms), pane) == panes_of_list(ms.subrange(0, k)).len()
            + first_index(panes_of(ms[k]), pane),
{
    lemma_panes_around(ms, k);
    lemma_first_index_mid(
        panes_of_list(ms.subrange(0, k)),
        panes_of(ms[k]),
        panes_of_list(ms.subrange(k + 1, ms.len() as int)),
        pane,
    );
}

proof fn lemma_first_holder_unique(ms: Seq<Member>, k1: int, k2: int, pane: u64)
    requires
        is_first_holder(ms, k1, pane),
        is_first_holder(ms, k2, pane),
    ensures
        k1 == k2,
{
    if k1 < k2 {
        lemma_holder_earlier(ms, k1, k2, pane);
    } else if k2 < k1 {
        lemma_holder_earlier(ms, k2, k1, pane);
    }
}

proof fn lemma_holder_earlier(ms: Seq<Member>, j: int, k: int, pane: u64)
    requires
        0 <= j < k <= ms.len(),
        panes_of(ms[j]).contains(pane),
    ensures
        panes_of_list(ms.subrange(0, k)).contains(pane),
{
    let pre = ms.subrange(0, k);
    lemma_panes_around(pre, j);
    assert(pre[j] == ms[j]);
    let a = panes_of_list(pre.subrange(0, j));
    let mid = panes_of(ms[j]);
    let b = panes_of_list(pre.subrange(j + 1, pre.len() as int));
    let i = choose|i: int| 0 <= i < mid.len() && mid[i] == pane;
    assert((a + mid + b)[a.len() + i] == pane);
}

proof fn lemma_no_holder(ms: Seq<Member>, pane: u64)
    requires
        !panes_of_list(ms).contains(pane),
    ensures
        !(exists|k: int| is_first_holder(ms, k, pane)),
{
    assert forall|k: int| !is_first_holder(ms, k, pane) by {
        if is_first_holder(ms, k, pane) {
            lemma_holder_facts(ms, k, pane);
        }
    }
}

/// The index of the first member whose panes include `pane`, or the number
/// of members when none does.
fn find_holder(members: &Vec<Member>, pane: u64) -> (k: usize)
    ensures
        k <= members@.len(),
        k < members@.len() ==> is_first_holder(members@, k as int, pane),
        k == members@.len() ==> !panes_of_list(members@).contains(pane),
{
    let mut k: usize = 0;
    while k < members.len()
        invariant
            k <= members@.len(),
            !panes_of_list(members@.subrange(0, k as int)).contains(pane),
        decreases members@.len() - k,
    {
        if members[k].contains(pane) {
            return k;
        }
        proof {
            let ms = members@;
            assert(ms.subrange(0, k + 1) =~= ms.subrange(0, k as int) + seq![ms[k as int]]);
            lemma_panes_of_list_concat(ms.subrange(0, k as int), seq![ms[k as int]]);
            lemma_panes_of_single(ms[k as int]);
        }
        k = k + 1;
    }
    proof {
        assert(members@.subrange(0, members@.len() as int) =~= members@);
    }
    k
}

/// The panes and shape of a member list in which member `k` was replaced by
/// the members `rep`.
proof fn lemma_replace_member(ms: Seq<Member>, k: int, rep: Seq<Member>)
    requires
        0 <= k < ms.len(),
    ensures
        ({
            let pre = ms.subrange(0, k);
            let post = ms.subrange(k + 1, ms.len() as int);
            let ms2 = pre + rep + post;
            &&& panes_of_list(ms2) == panes_of_list(pre) + panes_of_list(rep) + panes_of_list(post)
            &&& well_formed_list(ms2) == (well_formed_list(pre) && well_formed_list(rep)
                && well_formed_list(post))
            &&& axes_nonempty_list(ms2) == (axes_nonempty_list(pre) && axes_nonempty_list(rep)
                && axes_nonempty_list(post))
            &&& well_formed_list(ms) == (well_formed_list(pre) && well_formed(ms[k])
                && well_formed_list(post))
            &&& axes_nonempty_list(ms) == (axes_nonempty_list(pre) && axes_nonempty(ms[k])
                && axes_nonempty_list(post))
        }),
{
    let pre = ms.subrange(0, k);
    let post = ms.subrange(k + 1, ms.len() as int);
    lemma_panes_of_list_concat(pre + rep, post);
    lemma_panes_of_list_concat(pre, rep);
    lemma_list_props_concat(pre + rep, post);
    lemma_list_props_concat(pre, rep);
    assert(ms =~= pre + seq![ms[k]] + post);
    lemma_list_props_concat(pre + seq![ms[k]], post);
    lemma_list_props_concat(pre, seq![ms[k]]);
    lemma_list_props_single(ms[k]);
}

/// Both shape properties of a list of two single panes.
proof fn lemma_two_panes(x: u64, y: u64)
    ensures
        panes_of_list(seq![Member::Pane(x), Member::Pane(y)]) == seq![x, y],
        well_formed_list(seq![Member::Pane(x), Member::Pane(y)]),
        axes_nonempty_list(seq![Member::Pane(x), Member::Pane(y)]),
{
    let s = seq![Member::Pane(x), Member::Pane(y)];
    assert(s =~= seq![Member::Pane(x)] + seq![Member::Pane(y)]);
    lemma_panes_of_list_concat(seq![Member::Pane(x)], seq![Member::Pane(y)]);
    lemma_panes_of_single(Member::Pane(x));
    lemma_panes_of_single(Member::Pane(y));
    lemma_list_props_concat(seq![Member::Pane(x)], seq![Member::Pane(y)]);
    lemma_list_props_single(Member::Pane(x));
    lemma_list_props_single(Member::Pane(y));
    assert(panes_of(Member::Pane(x)) =~= seq![x]);
    assert(panes_of(Member::Pane(y)) =~= seq![y]);
    assert(seq![x] + seq![y] =~= seq![x, y]);
}

// ---------------------------------------------------------------------------
// the shape of a split
// ---------------------------------------------------------------------------

/// The index of the member that first holds `pane`, depth first.
pub open spec fn holder_index(ms: Seq<Member>, pane: u64) -> int {
    choose|k: int| is_first_holder(ms, k, pane)
}

/// The two panes of a split of `p`, in the direction's order.
pub open spec fn split_pair(p: u64, new_pane: u64, direction: SplitDirection) -> Seq<Member> {
    if direction.spec_increasing() {
        seq![Member::Pane(p), Member::Pane(new_pane)]
    } else {
        seq![Member::Pane(new_pane), Member::Pane(p)]
    }
}

/// `after` is `before` with `new_pane` split off pane `old_pane` (its first
/// occurrence, depth first) in `direction`: a single pane becomes an axis
/// in the direction's orientation holding both panes; within an axis of
/// that orientation the new pane goes right next to the old one; within an
/// axis of the other orientation the old pane becomes such a two-pane axis.
pub open spec fn split_shape(before: Member, after: Member, old_pane: u64, new_pane: u64, direction: SplitDirection) -> bool
    decreases before,
{
    match before {
        Member::Pane(p) => after matches Member::Axis(b) && b.axis == direction.spec_axis()
            && b.members@ == split_pair(p, new_pane, direction),
        Member::Axis(a) => {
            let ms = a.members@;
            let k = holder_index(ms, old_pane);
            &&& after is Axis
            &&& after->Axis_0.axis == a.axis
            &&& 0 <= k < ms.len()
            &&& match ms[k] {
                Member::Axis(_) => {
                    let bs = after->Axis_0.members@;
                    &&& bs.len() == ms.len()
                    &&& bs == ms.update(k, bs[k])
                    &&& split_shape(ms[k], bs[k], old_pane, new_pane, direction)
                },
                Member::Pane(p) => if direction.spec_axis() == a.axis {
                    after->Axis_0.members@ == ms.insert(
                        if direction.spec_increasing() {
                            k + 1
                        } else {
                            k
                        },
                        Member::Pane(new_pane),
                    )
                } else {
                    let bs = after->Axis_0.members@;
                    &&& bs.len() == ms.len()
                    &&& bs == ms.update(k, bs[k])
                    &&& split_shape(ms[k], bs[k], old_pane, new_pane, direction)
                },
            }
        },
    }
}

// ---------------------------------------------------------------------------
// splitting
// ---------------------------------------------------------------------------

proof fn lemma_insert_concat(a: Seq<u64>, b: Seq<u64>, c: Seq<u64>, k: int, x: u64)
    requires
        0 <= k <= b.len(),
    ensures
        (a + b + c).insert(a.len() + k, x) == a + b.insert(k, x) + c,
{
    assert((a + b + c).insert(a.len() + k, x) =~= a + b.insert(k, x) + c);
}

/// Where `x` first occurs in `pre + mid + post` when it is in `mid` and not
/// in `pre`.
proof fn lemma_first_index_mid(pre: Seq<u64>, mid: Seq<u64>, post: Seq<u64>, x: u64)
    requires
        !pre.contains(x),
        mid.contains(x),
    ensures
        first_index(pre + mid + post, x) == pre.len() + first_index(mid, x),
        (pre + mid + post).contains(x),
{
    assert(pre + mid + post =~= pre + (mid + post));
    lemma_first_index_concat(pre, mid + post, x);
    lemma_first_index_concat(mid, post, x);
    let j = choose|j: int| 0 <= j < mid.len() && mid[j] == x;
    assert((pre + mid + post)[pre.len() + j] == x);
}

/// The axis that a split of `old_pane` in `direction` creates.
fn new_axis(old_pane: u64, new_pane: u64, direction: SplitDirection) -> (r: Member)
    ensures
        r matches Member::Axis(a) && a.axis == direction.spec_axis() && a.members@ == split_pair(
            old_pane,
            new_pane,
            direction,
        ),
        panes_of(r) == (if direction.spec_increasing() {
            seq![old_pane, new_pane]
        } else {
            seq![new_pane, old_pane]
        }),
        well_formed(r),
        axes_nonempty(r),
{
    let members = if direction.increasing() {
        vec![Member::Pane(old_pane), Member::Pane(new_pane)]
    } else {
        vec![Member::Pane(new_pane), Member::Pane(old_pane)]
    };
    proof {
        if direction.spec_increasing() {
            lemma_two_panes(old_pane, new_pane);
        } else {
            lemma_two_panes(new_pane, old_pane);
        }
    }
    Member::Axis(PaneAxis { axis: direction.axis(), members })
}

/// Splits the first occurrence (depth first) of `old_pane` in the axis,
/// placing `new_pane` next to it in `direction`.
fn split_axis(a: PaneAxis, old_pane: u64, new_pane: u64, direction: SplitDirection) -> (r:
    PaneAxis)
    requires
        panes_of_list(a.members@).contains(old_pane),
    ensures
        r.axis == a.axis,
        panes_of_list(r.members@) == insert_next_to(
            panes_of_list(a.members@),
            old_pane,
            new_pane,
            direction.spec_increasing(),
        ),
        r.members@.len() >= a.members@.len(),
        axes_nonempty_list(a.members@) ==> axes_nonempty_list(r.members@),
        well_formed_list(a.members@) ==> well_formed_list(r.members@),
        split_shape(Member::Axis(a), Member::Axis(r), old_pane, new_pane, direction),
    decreases members_size(a.members@),
{
    let ghost ms = a.members@;
    let ghost inc = direction.spec_increasing();
    let axis = a.axis;
    let mut members = a.members;
    let k = find_holder(&members, old_pane);
    let ghost pre = panes_of_list(ms.subrange(0, k as int));
    let ghost mid = panes_of(ms[k as int]);
    let ghost post = panes_of_list(ms.subrange(k + 1, ms.len() as int));
    proof {
        lemma_holder_facts(ms, k as int, old_pane);
        lemma_members_size_index(ms, k as int);
        lemma_panes_around(ms, k as int);
        lemma_first_index(mid, old_pane);
        assert(is_first_holder(ms, k as int, old_pane));
        lemma_first_holder_unique(ms, k as int, holder_index(ms, old_pane), old_pane);
    }
    let taken = members.remove(k);
    let ghost rep: Seq<Member>;
    match taken {
        Member::Axis(child) => {
            let child2 = split_axis(child, old_pane, new_pane, direction);
            let nm = Member::Axis(child2);
            members.insert(k, nm);
            proof {
                rep = seq![nm];
                lemma_panes_of_single(nm);
                lemma_list_props_single(nm);
                assert(members@ =~= ms.update(k as int, nm));
            }
        },
        Member::Pane(p) => {
            proof {
                assert(mid =~= seq![p]);
                assert(mid[0] == old_pane);
            }
            if direction.axis() == axis {
                if direction.increasing() {
                    members.insert(k, Member::Pane(new_pane));
                    members.insert(k, Member::Pane(p));
                    proof {
                        rep = seq![Member::Pane(p), Member::Pane(new_pane)];
                        lemma_two_panes(p, new_pane);
                        assert(members@ =~= ms.insert(k + 1, Member::Pane(new_pane)));
                    }
                } else {
                    members.insert(k, Member::Pane(p));
                    members.insert(k, Member::Pane(new_pane));
                    proof {
                        rep = seq![Member::Pane(new_pane), Member::Pane(p)];
                        lemma_two_panes(new_pane, p);
                        assert(members@ =~= ms.insert(k as int, Member::Pane(new_pane)));
                    }
                }
            } else {
                let na = new_axis(p, new_pane, direction);
                members.insert(k, na);
                proof {
                    rep = seq![na];
                    lemma_panes_of_single(na);
                    lemma_list_props_single(na);
                    assert(members@ =~= ms.update(k as int, na));
                    assert(split_shape(Member::Pane(p), na, old_pane, new_pane, direction));
                }
            }
        },
    }
    proof {
        let idx = if inc {
            first_index(mid, old_pane) + 1
        } else {
            first_index(mid, old_pane)
        };
        assert(members@ =~= ms.subrange(0, k as int) + rep + ms.subrange(k + 1, ms.len() as int));
        lemma_replace_member(ms, k as int, rep);
        lemma_insert_concat(pre, mid, post, idx, new_pane);
        assert(panes_of_list(rep) =~= mid.insert(idx, new_pane));
    }
    PaneAxis { axis, members }
}

// ---------------------------------------------------------------------------
// removing
// ---------------------------------------------------------------------------

/// `after` is what removing `pane` (its first occurrence, depth first)
/// leaves of the axis `a`: the pane's own member goes, or the member axis
/// that holds it is replaced by what the removal leaves of it; an axis left
/// with a single member collapses into that member.
pub open spec fn removal_shape(a: PaneAxis, after: Member, pane: u64) -> bool
    decreases a,
{
    let ms = a.members@;
    let k = holder_index(ms, pane);
    let n = if ms[k] is Pane {
        ms.len() - 1
    } else {
        ms.len() as int
    };
    let rest = if n == 1 {
        seq![after]
    } else {
        after->Axis_0.members@
    };
    &&& 0 <= k < ms.len()
    &&& (n == 1 || (after is Axis && after->Axis_0.axis == a.axis))
    &&& rest.len() == n
    &&& match ms[k] {
        Member::Pane(_) => rest == ms.remove(k),
        Member::Axis(c) => rest == ms.update(k, rest[k]) && removal_shape(c, rest[k], pane),
    }
}

/// What removing a pane from an axis leaves.
enum RemoveOutcome {
    /// The axis keeps a number of members other than one.
    Removed(PaneAxis),
    /// The axis was left with this single member.
    Collapsed(Member),
}

/// Removes the first occurrence (depth first) of `pane` from the axis.
fn remove_from_axis(a: PaneAxis, pane: u64) -> (r: RemoveOutcome)
    requires
        panes_of_list(a.members@).contains(pane),
    ensures
        match r {
            RemoveOutcome::Removed(a2) => {
                &&& a2.axis == a.axis
                &&& a2.members@.len() != 1
                &&& panes_of_list(a2.members@) == remove_first(panes_of_list(a.members@), pane)
                &&& (well_formed(Member::Axis(a)) ==> well_formed(Member::Axis(a2)))
            },
            RemoveOutcome::Collapsed(m) => {
                &&& panes_of(m) == remove_first(panes_of_list(a.members@), pane)
                &&& (well_formed(Member::Axis(a)) ==> well_formed(m))
            },
        },
        match r {
            RemoveOutcome::Removed(a2) => removal_shape(a, Member::Axis(a2), pane),
            RemoveOutcome::Collapsed(m) => removal_shape(a, m, pane),
        },
    decreases members_size(a.members@),
{
    let ghost ms = a.members@;
    let axis = a.axis;
    let mut members = a.members;
    let k = find_holder(&members, pane);
    let ghost pre = panes_of_list(ms.subrange(0, k as int));
    let ghost mid = panes_of(ms[k as int]);
    let ghost post = panes_of_list(ms.subrange(k + 1, ms.len() as int));
    proof {
        lemma_holder_facts(ms, k as int, pane);
        lemma_members_size_index(ms, k as int);
        lemma_panes_around(ms, k as int);
        lemma_first_index(mid, pane);
        assert(is_first_holder(ms, k as int, pane));
        lemma_first_holder_unique(ms, k as int, holder_index(ms, pane), pane);
    }
    let taken = members.remove(k);
    let ghost rep: Seq<Member>;
    match taken {
        Member::Pane(p) => {
            proof {
                rep = Seq::empty();
                assert(mid =~= seq![p]);
                assert(mid[0] == pane);
                assert(mid.remove(0) =~= Seq::<u64>::empty());
                assert(panes_of_list(rep) =~= Seq::<u64>::empty());
                assert(members@ =~= ms.remove(k as int));
            }
        },
        Member::Axis(child) => {
            let outcome = remove_from_axis(child, pane);
            match outcome {
                RemoveOutcome::Removed(c) => {
                    let nm = Member::Axis(c);
                    members.insert(k, nm);
                    proof {
                        rep = seq![nm];
                        lemma_panes_of_single(nm);
                        lemma_list_props_single(nm);
                        assert(members@ =~= ms.update(k as int, nm));
                        assert(removal_shape(child, nm, pane));
                    }
                },
                RemoveOutcome::Collapsed(last) => {
                    let ghost nm = last;
                    members.insert(k, last);
                    proof {
                        rep = seq![nm];
                        lemma_panes_of_single(nm);
                        lemma_list_props_single(nm);
                        assert(members@ =~= ms.update(k as int, nm));
                        assert(removal_shape(child, nm, pane));
                    }
                },
            }
        },
    }
    proof {
        let idx = first_index(mid, pane);
        assert(members@ =~= ms.subrange(0, k as int) + rep + ms.subrange(k + 1, ms.len() as int));
        lemma_replace_member(ms, k as int, rep);
        assert(panes_of_list(rep) == mid.remove(idx));
        assert((pre + mid + post).remove(pre.len() + idx) =~= pre + mid.remove(idx) + post);
    }
    let ghost final_members = members@;
    let r = finish_removal(axis, members, Ghost(ms), Ghost(pane));
    proof {
        if r is Collapsed {
            assert(final_members == seq![r->Collapsed_0]);
        }
    }
    r
}

/// Completes a removal: an axis left with a single member collapses into it.
fn finish_removal(
    axis: Axis,
    members: Vec<Member>,
    Ghost(orig): Ghost<Seq<Member>>,
    Ghost(pane): Ghost<u64>,
) -> (r: RemoveOutcome)
    requires
        panes_of_list(members@) == remove_first(panes_of_list(orig), pane),
        well_formed_list(orig) && orig.len() >= 2 ==> well_formed_list(members@) && members@.len()
            >= 1,
    ensures
        match r {
            RemoveOutcome::Removed(a2) => {
                &&& a2.axis == axis
                &&& a2.members@.len() != 1
                &&& panes_of_list(a2.members@) == remove_first(panes_of_list(orig), pane)
                &&& (well_formed_list(orig) && orig.len() >= 2 ==> well_formed(Member::Axis(a2)))
            },
            RemoveOutcome::Collapsed(m) => {
                &&& panes_of(m) == remove_first(panes_of_list(orig), pane)
                &&& (well_formed_list(orig) && orig.len() >= 2 ==> well_formed(m))
            },
        },
        match r {
            RemoveOutcome::Removed(a2) => a2.axis == axis && a2.members@ == members@,
            RemoveOutcome::Collapsed(m) => members@ == seq![m],
        },
{
    let mut members = members;
    if members.len() == 1 {
        let ghost ms = members@;
        let last = members.pop().unwrap();
        proof {
            assert(ms =~= seq![last]);
            lemma_panes_of_single(last);
            lemma_list_props_single(last);
        }
        RemoveOutcome::Collapsed(last)
    } else {
        RemoveOutcome::Removed(PaneAxis { axis, members })
    }
}

// ---------------------------------------------------------------------------
// neighbours
// ---------------------------------------------------------------------------

/// The pane next to `from` in `direction`. At each axis, the member that
/// holds `from` (the first one, if several do) is searched first; only when
/// it has no neighbour inside, and the axis runs along the direction, is the
/// neighbouring member used: the first pane of the next member when going
/// right or down, the last pane of the previous member when going left or up.
pub open spec fn adjacent_pane(m: Member, from: u64, direction: SplitDirection) -> Option<u64>
    decreases m,
{
    match m {
        Member::Pane(_) => None,
        Member::Axis(a) => {
            let ms = a.members@;
            if exists|k: int| is_first_holder(ms, k, from) {
                let k = choose|k: int| is_first_holder(ms, k, from);
                let inner = adjacent_pane(ms[k], from, direction);
                if inner is Some {
                    inner
                } else if direction.spec_axis() == a.axis {
                    if direction.spec_increasing() {
                        if k + 1 < ms.len() {
                            Some(panes_of(ms[k + 1]).first())
                        } else {
                            None
                        }
                    } else if k > 0 {
                        Some(panes_of(ms[k - 1]).last())
                    } else {
                        None
                    }
                } else {
                    None
                }
            } else {
                None
            }
        },
    }
}

impl Member {
    /// The pane next to `from` in `direction`, if any.
    pub fn find_adjacent(&self, from: u64, direction: SplitDirection) -> (r: Option<u64>)
        requires
            axes_nonempty(*self),
        ensures
            r == adjacent_pane(*self, from, direction),
        decreases *self,
    {
        match self {
            Member::Pane(_) => None,
            Member::Axis(a) => {
                let ghost ms = a.members@;
                let k = find_holder(&a.members, from);
                if k == a.members.len() {
                    proof {
                        lemma_no_holder(ms, from);
                    }
                    return None;
                }
                proof {
                    lemma_first_holder_unique(
                        ms,
                        k as int,
                        choose|j: int| is_first_holder(ms, j, from),
                        from,
                    );
                    lemma_list_props_index(ms, k as int);
                }
                proof {
                    assert(decreases_to!(*self => (*self)->Axis_0));
                    assert(decreases_to!(*a => a.members));
                    assert(decreases_to!(a.members => a.members@));
                    assert(decreases_to!(a.members@ => a.members@[k as int]));
                }
                let inner = a.members[k].find_adjacent(from, direction);
                if inner.is_some() {
                    return inner;
                }
                if direction.axis() == a.axis {
                    if direction.increasing() {
                        if k + 1 < a.members.len() {
                            proof {
                                lemma_list_props_index(ms, k + 1);
                            }
                            Some(a.members[k + 1].first_pane())
                        } else {
                            None
                        }
                    } else if k > 0 {
                        proof {
                            lemma_list_props_index(ms, k - 1);
                        }
                        Some(a.members[k - 1].last_pane())
                    } else {
                        None
                    }
                } else {
                    None
                }
            },
        }
    }
}

// ---------------------------------------------------------------------------
// the group
// ---------------------------------------------------------------------------

/// The pane next to which a split of `old_pane` places the new pane: that
/// pane itself when the tree holds it, the first pane otherwise.
pub open spec fn split_anchor(root: Member, old_pane: u64) -> u64 {
    if panes_of(root).contains(old_pane) {
        old_pane
    } else {
        panes_of(root)[0]
    }
}

impl PaneGroup {
    /// A group holding the single pane `pane`.
    pub fn new(pane: u64) -> (r: Self)
        ensures
            r.root == Member::Pane(pane),
            panes_of(r.root) == seq![pane],
            well_formed(r.root),
            axes_nonempty(r.root),
    {
        let r = PaneGroup { root: Member::Pane(pane) };
        assert(panes_of(r.root) =~= seq![pane]);
        r
    }

    /// Inserts `new_pane` next to `old_pane` in `direction`; when the tree
    /// does not hold `old_pane`, next to its first pane.
    pub fn split(&mut self, old_pane: u64, new_pane: u64, direction: SplitDirection)
        requires
            axes_nonempty(old(self).root),
        ensures
            panes_of(final(self).root) == insert_next_to(
                panes_of(old(self).root),
                split_anchor(old(self).root, old_pane),
                new_pane,
                direction.spec_increasing(),
            ),
            axes_nonempty(final(self).root),
            well_formed(old(self).root) ==> well_formed(final(self).root),
            split_shape(old(self).root, final(self).root, split_anchor(old(self).root, old_pane), new_pane, direction),
    {
        let ghost before = self.root;
        proof {
            lemma_panes_nonempty(before);
        }
        let anchor = if self.root.contains(old_pane) {
            old_pane
        } else {
            self.root.first_pane()
        };
        proof {
            if !panes_of(before).contains(old_pane) {
                assert(panes_of(before).contains(panes_of(before)[0]));
            }
        }
        let mut root = Member::Pane(0);
        std::mem::swap(&mut root, &mut self.root);
        match root {
            Member::Pane(p) => {
                proof {
                    assert(panes_of(before) =~= seq![p]);
                    assert(seq![p][0] == p);
                    assert(anchor == p);
                    assert(first_index(seq![p], p) == 0);
                    assert(seq![p].insert(0, new_pane) =~= seq![new_pane, p]);
                    assert(seq![p].insert(1, new_pane) =~= seq![p, new_pane]);
                }
                self.root = new_axis(p, new_pane, direction);
            },
            Member::Axis(a) => {
                let a2 = split_axis(a, anchor, new_pane, direction);
                self.root = Member::Axis(a2);
            },
        }
    }

    /// Removes `pane` from the tree. A group that is a single pane is left
    /// as it is and the answer is whether that pane differs from `pane`;
    /// otherwise the answer is whether `pane` was found (and removed).
    pub fn remove(&mut self, pane: u64) -> (r: bool)
        ensures
            match old(self).root {
                Member::Pane(p) => r == (p != pane) && final(self).root == old(self).root,
                Member::Axis(_) => {
                    &&& r == panes_of(old(self).root).contains(pane)
                    &&& r ==> panes_of(final(self).root) == remove_first(
                        panes_of(old(self).root),
                        pane,
                    )
                    &&& r ==> removal_shape(old(self).root->Axis_0, final(self).root, pane)
                    &&& !r ==> final(self).root == old(self).root
                },
            },
            well_formed(old(self).root) ==> well_formed(final(self).root),
    {
        match &self.root {
            Member::Pane(p) => {
                return *p != pane;
            },
            Member::Axis(_) => {},
        }
        if !self.root.contains(pane) {
            return false;
        }
        let mut root = Member::Pane(0);
        std::mem::swap(&mut root, &mut self.root);
        match root {
            Member::Axis(a) => {
                match remove_from_axis(a, pane) {
                    RemoveOutcome::Removed(a2) => {
                        self.root = Member::Axis(a2);
                    },
                    RemoveOutcome::Collapsed(m) => {
                        self.root = m;
                    },
                }
            },
            Member::Pane(p) => {
                self.root = Member::Pane(p);
            },
        }
        true
    }

    /// Every pane, depth first.
    pub fn panes(&self) -> (r: Vec<u64>)
        ensures
            r@ == panes_of(self.root),
    {
        let mut out = Vec::new();
        self.root.collect_panes(&mut out);
        assert(out@ =~= panes_of(self.root));
        out
    }

    /// The first pane, depth first.
    pub fn first_pane(&self) -> (r: u64)
        requires
            axes_nonempty(self.root),
        ensures
            panes_of(self.root).len() >= 1,
            r == panes_of(self.root)[0],
    {
        self.root.first_pane()
    }

    /// Whether the tree holds `pane`.
    pub fn contains(&self, pane: u64) -> (r: bool)
        ensures
            r == panes_of(self.root).contains(pane),
    {
        self.root.contains(pane)
    }

    /// Whether the tree is split into more than a single pane.
    pub fn is_split(&self) -> (r: bool)
        ensures
            r == (self.root is Axis),
    {
        match &self.root {
            Member::Axis(_) => true,
            Member::Pane(_) => false,
        }
    }

    /// The pane next to `from` in `direction`; none in a group of fewer than
    /// two panes.
    pub fn find_pane_in_direction(&self, from: u64, direction: SplitDirection) -> (r: Option<
        u64,
    >)
        requires
            axes_nonempty(self.root),
        ensures
            r == (if panes_of(self.root).len() < 2 {
                None
            } else {
                adjacent_pane(self.root, from, direction)
            }),
    {
        let panes = self.panes();
        if panes.len() < 2 {
            return None;
        }
        self.root.find_adjacent(from, direction)
    }
}

// ---------------------------------------------------------------------------
// laws
// ---------------------------------------------------------------------------

/// Splitting a pane that the tree holds adds exactly the new pane, right
/// after the anchor (or right before it), and keeps every other pane in
/// order.
pub proof fn law_split_adds_one_pane(s: Seq<u64>, anchor: u64, new_pane: u64, after: bool)
    requires
        s.contains(anchor),
    ensures
        insert_next_to(s, anchor, new_pane, after).len() == s.len() + 1,
        insert_next_to(s, anchor, new_pane, after).contains(new_pane),
        after ==> insert_next_to(s, anchor, new_pane, after)[first_index(s, anchor) + 1]
            == new_pane,
        after ==> insert_next_to(s, anchor, new_pane, after)[first_index(s, anchor)] == anchor,
        !after ==> insert_next_to(s, anchor, new_pane, after)[first_index(s, anchor)] == new_pane,
        !after ==> insert_next_to(s, anchor, new_pane, after)[first_index(s, anchor) + 1]
            == anchor,
{
    lemma_first_index(s, anchor);
    let i = if after {
        first_index(s, anchor) + 1
    } else {
        first_index(s, anchor)
    };
    let t = s.insert(i, new_pane);
    assert(t[i] == new_pane);
}

/// Removing a pane just added by a split gives back the panes from before
/// the split, when the new pane was not already there.
pub proof fn law_split_then_remove_restores(s: Seq<u64>, anchor: u64, new_pane: u64, after: bool)
    requires
        s.contains(anchor),
        !s.contains(new_pane),
    ensures
        remove_first(insert_next_to(s, anchor, new_pane, after), new_pane) == s,
{
    lemma_first_index(s, anchor);
    let i = if after {
        first_index(s, anchor) + 1
    } else {
        first_index(s, anchor)
    };
    let t = s.insert(i, new_pane);
    assert(t[i] == new_pane);
    assert forall|j: int| 0 <= j < i implies t[j] != new_pane by {
        assert(t[j] == s[j]);
    }
    lemma_first_index(t, new_pane);
    assert(t.contains(new_pane));
    let f = first_index(t, new_pane);
    assert(f == i) by {
        if f < i {
            assert(t[f] != new_pane);
        }
        if f > i {
            assert(t[i] != new_pane);
        }
    }
    assert(t.remove(i) =~= s);
}

/// The pane that a search for the neighbour of a pane gives is one of the
/// tree's panes.
pub proof fn law_adjacent_is_a_pane(m: Member, from: u64, direction: SplitDirection)
    requires
        axes_nonempty(m),
    ensures
        adjacent_pane(m, from, direction) matches Some(p) ==> panes_of(m).contains(p),
    decreases m,
{
    match m {
        Member::Pane(_) => {},
        Member::Axis(a) => {
            let ms = a.members@;
            if exists|k: int| is_first_holder(ms, k, from) {
                let k = choose|k: int| is_first_holder(ms, k, from);
                lemma_list_props_index(ms, k);
                law_adjacent_is_a_pane(ms[k], from, direction);
                if let Some(p) = adjacent_pane(ms[k], from, direction) {
                    lemma_holder_earlier(ms, k, ms.len() as int, p);
                    assert(ms.subrange(0, ms.len() as int) =~= ms);
                } else if direction.spec_axis() == a.axis {
                    if direction.spec_increasing() && k + 1 < ms.len() {
                        lemma_list_props_index(ms, k + 1);
                        lemma_panes_nonempty(ms[k + 1]);
                        let q = panes_of(ms[k + 1]);
                        assert(q.contains(q[0]));
                        lemma_holder_earlier(ms, k + 1, ms.len() as int, q[0]);
                        assert(ms.subrange(0, ms.len() as int) =~= ms);
                    } else if !direction.spec_increasing() && k > 0 {
                        lemma_list_props_index(ms, k - 1);
                        lemma_panes_nonempty(ms[k - 1]);
                        let q = panes_of(ms[k - 1]);
                        assert(q.contains(q[q.len() - 1]));
                        lemma_holder_earlier(ms, k - 1, ms.len() as int, q[q.len() - 1]);
                        assert(ms.subrange(0, ms.len() as int) =~= ms);
                    }
                }
            }
        },
    }
}

} // verus!

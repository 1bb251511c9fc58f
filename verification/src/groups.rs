use vstd::prelude::*;

verus! {

/// A named set of rows (or of columns) that can be collapsed as a unit.
///
/// Groups nest: `parent` names the id of the enclosing group, and `depth`
/// is the nesting level that was computed when the group was created.
#[derive(Clone, Debug)]
pub struct Group {
    pub id: u32,
    pub label: String,
    pub members: Vec<u32>,
    pub collapsed: bool,
    pub depth: u32,
    pub parent: Option<u32>,
}

/// The mathematical value of a [`Group`].
pub struct GroupView {
    pub id: u32,
    pub label: Seq<char>,
    pub members: Seq<u32>,
    pub collapsed: bool,
    pub depth: u32,
    pub parent: Option<u32>,
}

impl View for Group {
    type V = GroupView;

    open spec fn view(&self) -> GroupView {
        GroupView {
            id: self.id,
            label: self.label@,
            members: self.members@,
            collapsed: self.collapsed,
            depth: self.depth,
            parent: self.parent,
        }
    }
}

/// The values of a sequence of groups.
pub open spec fn views(gs: Seq<Group>) -> Seq<GroupView> {
    gs.map_values(|g: Group| g@)
}

/// No two groups of `gs` share an id.
pub open spec fn ids_unique(gs: Seq<GroupView>) -> bool {
    forall|i: int, j: int| 0 <= i < gs.len() && 0 <= j < gs.len() && i != j ==> gs[i].id != gs[j].id
}

/// Some group of `gs` has id `id`.
pub open spec fn has_id(gs: Seq<GroupView>, id: u32) -> bool {
    exists|i: int| 0 <= i < gs.len() && gs[i].id == id
}

/// The position of the group with id `id` (meaningful when `has_id`).
pub open spec fn index_of(gs: Seq<GroupView>, id: u32) -> int {
    choose|i: int| 0 <= i < gs.len() && gs[i].id == id
}

/// The id of the enclosing group of group `id`, when both groups are in `gs`.
pub open spec fn parent_link(gs: Seq<GroupView>, id: u32) -> Option<u32> {
    if has_id(gs, id) {
        match gs[index_of(gs, id)].parent {
            Some(p) => if has_id(gs, p) {
                Some(p)
            } else {
                None
            },
            None => None,
        }
    } else {
        None
    }
}

/// The group reached from group `id` by following `k` parent links
/// (`k == 0` is the group itself), if the chain of groups reaches that far.
pub open spec fn ancestor(gs: Seq<GroupView>, id: u32, k: nat) -> Option<u32>
    decreases k,
{
    if !has_id(gs, id) {
        None
    } else if k == 0 {
        Some(id)
    } else {
        match parent_link(gs, id) {
            Some(p) => ancestor(gs, p, (k - 1) as nat),
            None => None,
        }
    }
}

/// Group `id` is in `gs` and is collapsed.
pub open spec fn collapsed_at(gs: Seq<GroupView>, id: u32) -> bool {
    has_id(gs, id) && gs[index_of(gs, id)].collapsed
}

/// The `k`-th ancestor of group `id` exists and is collapsed.
pub open spec fn collapsed_ancestor(gs: Seq<GroupView>, id: u32, k: nat) -> bool {
    match ancestor(gs, id, k) {
        Some(a) => collapsed_at(gs, a),
        None => false,
    }
}

/// Some enclosing group of group `id` (at any level) is collapsed.
pub open spec fn under_collapsed(gs: Seq<GroupView>, id: u32) -> bool {
    exists|k: nat| k >= 1 && #[trigger] collapsed_ancestor(gs, id, k)
}

/// Some enclosing group of group `id` that is at most `gs.len()` levels up
/// is collapsed.
pub open spec fn collapsed_within(gs: Seq<GroupView>, id: u32) -> bool {
    exists|k: nat| 1 <= k <= gs.len() && #[trigger] collapsed_ancestor(gs, id, k)
}

/// Group `id` is folded away: it is collapsed itself or lies inside a
/// collapsed group.
pub open spec fn folded(gs: Seq<GroupView>, id: u32) -> bool {
    exists|k: nat| #[trigger] collapsed_ancestor(gs, id, k)
}

/// Line `r` (a row or a column) is a member of a folded group of `gs`.
pub open spec fn line_hidden(gs: Seq<GroupView>, r: u32) -> bool {
    exists|i: int| 0 <= i < gs.len() && folded(gs, gs[i].id) && #[trigger] gs[i].members.contains(r)
}

// ─── Lemmas on the parent chain ─────────────────────────────────────

/// With unique ids, the chosen position of an id is the position holding it.
pub proof fn lemma_index_of_unique(gs: Seq<GroupView>, i: int)
    requires
        ids_unique(gs),
        0 <= i < gs.len(),
    ensures
        has_id(gs, gs[i].id),
        index_of(gs, gs[i].id) == i,
{
    assert(0 <= i < gs.len() && gs[i].id == gs[i].id);
}

/// One more parent link extends the chain at its far end.
pub proof fn lemma_ancestor_step(gs: Seq<GroupView>, id: u32, k: nat)
    ensures
        ancestor(gs, id, k + 1) == match ancestor(gs, id, k) {
            Some(a) => match parent_link(gs, a) {
                Some(p) => Some(p),
                None => None,
            },
            None => None,
        },
    decreases k,
{
    if has_id(gs, id) && k > 0 {
        match parent_link(gs, id) {
            Some(p) => {
                lemma_ancestor_step(gs, p, (k - 1) as nat);
            },
            None => {},
        }
    }
    if has_id(gs, id) {
        match parent_link(gs, id) {
            Some(p) => {
                assert(has_id(gs, p));
                if k == 0 {
                    assert(ancestor(gs, p, 0) == Some(p));
                }
            },
            None => {},
        }
    }
}

/// Every group on the chain is in `gs`.
pub proof fn lemma_ancestor_has_id(gs: Seq<GroupView>, id: u32, k: nat)
    requires
        ancestor(gs, id, k) is Some,
    ensures
        has_id(gs, ancestor(gs, id, k)->0),
    decreases k,
{
    if k > 0 {
        match parent_link(gs, id) {
            Some(p) => lemma_ancestor_has_id(gs, p, (k - 1) as nat),
            None => {},
        }
    }
}

/// Once the chain breaks it stays broken.
pub proof fn lemma_ancestor_none(gs: Seq<GroupView>, id: u32, k: nat, m: nat)
    requires
        ancestor(gs, id, k) is None,
        k <= m,
    ensures
        ancestor(gs, id, m) is None,
    decreases m - k,
{
    if k < m {
        lemma_ancestor_step(gs, id, k);
        lemma_ancestor_none(gs, id, k + 1, m);
    }
}

/// The `k`-th ancestor of a group is the `k+1`-th ancestor of each of its
/// children in `gs`.
pub proof fn lemma_ancestor_of_child(gs: Seq<GroupView>, i: int, k: nat)
    requires
        ids_unique(gs),
        0 <= i < gs.len(),
        gs[i].parent matches Some(p) && has_id(gs, p),
    ensures
        ancestor(gs, gs[i].id, k + 1) == ancestor(gs, gs[i].parent->0, k),
{
    lemma_index_of_unique(gs, i);
}

/// A child of a folded group is folded.
pub proof fn lemma_child_folded(gs: Seq<GroupView>, i: int)
    requires
        ids_unique(gs),
        0 <= i < gs.len(),
        gs[i].parent matches Some(p) && has_id(gs, p) && folded(gs, p),
    ensures
        folded(gs, gs[i].id),
{
    let p = gs[i].parent->0;
    let k = choose|k: nat| #[trigger] collapsed_ancestor(gs, p, k);
    lemma_ancestor_of_child(gs, i, k);
    assert(collapsed_ancestor(gs, gs[i].id, k + 1));
}

/// A folded group is in `gs`.
pub proof fn lemma_folded_has_id(gs: Seq<GroupView>, id: u32)
    requires
        folded(gs, id),
    ensures
        has_id(gs, id),
{
    let k = choose|k: nat| #[trigger] collapsed_ancestor(gs, id, k);
    assert(ancestor(gs, id, k) is Some);
}

/// Following `a` links and then `b` more is following `a + b` links.
pub proof fn lemma_ancestor_add(gs: Seq<GroupView>, id: u32, a: nat, b: nat)
    ensures
        ancestor(gs, id, a + b) == match ancestor(gs, id, a) {
            Some(x) => ancestor(gs, x, b),
            None => None,
        },
    decreases a,
{
    if has_id(gs, id) && a > 0 {
        match parent_link(gs, id) {
            Some(p) => {
                lemma_ancestor_add(gs, p, (a - 1) as nat, b);
                assert((a - 1) as nat + b == (a + b - 1) as nat);
            },
            None => {},
        }
    }
}

/// Two of the first `gs.len() + 1` groups on a chain that long coincide.
proof fn lemma_chain_repeats(gs: Seq<GroupView>, id: u32)
    requires
        ancestor(gs, id, gs.len()) is Some,
    ensures
        exists|i: nat, j: nat| i < j <= gs.len() && ancestor(gs, id, i) == ancestor(gs, id, j),
{
    broadcast use vstd::seq_lib::seq_to_set_is_finite;

    let n = gs.len();
    let s = Seq::new(n + 1, |m: int| ancestor(gs, id, m as nat)->0);
    let ids = gs.map_values(|g: GroupView| g.id);
    if !(exists|i: nat, j: nat| i < j <= gs.len() && ancestor(gs, id, i) == ancestor(gs, id, j)) {
        assert forall|m: int| 0 <= m <= n implies #[trigger] ancestor(gs, id, m as nat) is Some by {
            if ancestor(gs, id, m as nat) is None {
                lemma_ancestor_none(gs, id, m as nat, n);
            }
        }
        assert(s.no_duplicates()) by {
            assert forall|i: int, j: int| 0 <= i < s.len() && 0 <= j < s.len() && i != j implies s[i]
                != s[j] by {
                if i < j {
                    assert(ancestor(gs, id, i as nat) != ancestor(gs, id, j as nat));
                } else {
                    assert(ancestor(gs, id, j as nat) != ancestor(gs, id, i as nat));
                }
            }
        }
        s.unique_seq_to_set();
        assert forall|x: u32| s.to_set().contains(x) implies ids.to_set().contains(x) by {
            let m = choose|m: int| 0 <= m < s.len() && s[m] == x;
            lemma_ancestor_has_id(gs, id, m as nat);
            let q = choose|q: int| 0 <= q < gs.len() && gs[q].id == x;
            assert(ids[q] == x);
        }
        ids.lemma_cardinality_of_set();
        vstd::set_lib::lemma_len_subset(s.to_set(), ids.to_set());
    }
}

/// A collapsed enclosing group at any level has a collapsed enclosing group
/// within `gs.len()` levels.
pub proof fn lemma_collapsed_within(gs: Seq<GroupView>, id: u32, k: nat)
    requires
        k >= 1,
        collapsed_ancestor(gs, id, k),
    ensures
        collapsed_within(gs, id),
    decreases k,
{
    let n = gs.len();
    if k > n {
        if ancestor(gs, id, n) is None {
            lemma_ancestor_none(gs, id, n, k);
        }
        lemma_chain_repeats(gs, id);
        let (i, j) = choose|i: nat, j: nat| i < j <= gs.len() && ancestor(gs, id, i) == ancestor(gs, id, j);
        let x = ancestor(gs, id, j)->0;
        if ancestor(gs, id, j) is None {
            lemma_ancestor_none(gs, id, j, k);
        }
        let k2 = (k - (j - i)) as nat;
        lemma_ancestor_add(gs, id, j, (k - j) as nat);
        lemma_ancestor_add(gs, id, i, (k - j) as nat);
        assert(i + (k - j) as nat == k2);
        assert(j + (k - j) as nat == k);
        assert(ancestor(gs, id, k2) == ancestor(gs, id, k));
        assert(collapsed_ancestor(gs, id, k2));
        lemma_collapsed_within(gs, id, k2);
    } else {
        assert(1 <= k <= gs.len() && collapsed_ancestor(gs, id, k));
    }
}

/// Looking at most `gs.len()` levels up finds a collapsed enclosing group
/// exactly when there is one.
pub proof fn lemma_within_exact(gs: Seq<GroupView>, id: u32)
    ensures
        collapsed_within(gs, id) == under_collapsed(gs, id),
{
    if under_collapsed(gs, id) {
        let k = choose|k: nat| k >= 1 && #[trigger] collapsed_ancestor(gs, id, k);
        lemma_collapsed_within(gs, id, k);
    }
    if collapsed_within(gs, id) {
        let k = choose|k: nat| 1 <= k <= gs.len() && #[trigger] collapsed_ancestor(gs, id, k);
        assert(k >= 1 && collapsed_ancestor(gs, id, k));
    }
}

// ─── Searching ──────────────────────────────────────────────────────

/// The position of the first group with id `id`.
pub(crate) fn find_index(gs: &Vec<Group>, id: u32) -> (res: Option<usize>)
    ensures
        match res {
            Some(i) => i < gs.len() && gs@[i as int].id == id && forall|j: int|
                0 <= j < i ==> gs@[j].id != id,
            None => !has_id(views(gs@), id),
        },
{
    let mut i: usize = 0;
    while i < gs.len()
        invariant
            i <= gs.len(),
            forall|j: int| 0 <= j < i ==> gs@[j].id != id,
        decreases gs.len() - i,
    {
        if gs[i].id == id {
            return Some(i);
        }
        i = i + 1;
    }
    proof {
        if has_id(views(gs@), id) {
            let j = choose|j: int| 0 <= j < views(gs@).len() && views(gs@)[j].id == id;
            assert(gs@[j].id == id);
        }
    }
    None
}

/// Whether some enclosing group of group `gid` (at any level) is collapsed.
///
/// Follows at most `gs.len()` parent links: a chain that does not repeat a
/// group is never longer, and a chain that runs into a cycle of groups none
/// of which is collapsed answers `false` after that many steps.
pub(crate) fn ancestor_collapsed(gs: &Vec<Group>, gid: u32) -> (res: bool)
    requires
        ids_unique(views(gs@)),
    ensures
        res == under_collapsed(views(gs@), gid),
{
    let ghost vs = views(gs@);
    proof {
        lemma_within_exact(vs, gid);
    }
    let n = gs.len();
    let mut cur = gid;
    let mut steps: usize = 0;
    while steps < n
        invariant
            vs == views(gs@),
            ids_unique(vs),
            n == gs.len(),
            steps <= n,
            steps == 0 ==> cur == gid,
            steps > 0 ==> ancestor(vs, gid, steps as nat) == Some(cur),
            forall|k: nat| 1 <= k <= steps ==> !#[trigger] collapsed_ancestor(vs, gid, k),
            collapsed_within(vs, gid) == under_collapsed(vs, gid),
        decreases n - steps,
    {
        let i = match find_index(gs, cur) {
            Some(i) => i,
            None => {
                proof {
                    if steps > 0 {
                        lemma_ancestor_has_id(vs, gid, steps as nat);
                    }
                    assert(ancestor(vs, gid, steps as nat) is None);
                    assert forall|k: nat| 1 <= k <= n implies !#[trigger] collapsed_ancestor(vs, gid, k) by {
                        if k > steps {
                            lemma_ancestor_none(vs, gid, steps as nat, k);
                        }
                    }
                }
                return false;
            },
        };
        proof {
            lemma_index_of_unique(vs, i as int);
            lemma_ancestor_step(vs, gid, steps as nat);
        }
        let pid = match gs[i].parent {
            Some(p) => p,
            None => {
                proof {
                    assert(parent_link(vs, cur) is None);
                    assert(ancestor(vs, gid, (steps + 1) as nat) is None);
                    assert forall|k: nat| 1 <= k <= n implies !#[trigger] collapsed_ancestor(vs, gid, k) by {
                        if k > steps {
                            lemma_ancestor_none(vs, gid, (steps + 1) as nat, k);
                        }
                    }
                }
                return false;
            },
        };
        let j = match find_index(gs, pid) {
            Some(j) => j,
            None => {
                proof {
                    assert(parent_link(vs, cur) is None);
                    assert(ancestor(vs, gid, (steps + 1) as nat) is None);
                    assert forall|k: nat| 1 <= k <= n implies !#[trigger] collapsed_ancestor(vs, gid, k) by {
                        if k > steps {
                            lemma_ancestor_none(vs, gid, (steps + 1) as nat, k);
                        }
                    }
                }
                return false;
            },
        };
        proof {
            lemma_index_of_unique(vs, j as int);
            assert(parent_link(vs, cur) == Some(pid));
            assert(ancestor(vs, gid, (steps + 1) as nat) == Some(pid));
        }
        if gs[j].collapsed {
            proof {
                assert(collapsed_ancestor(vs, gid, (steps + 1) as nat));
            }
            return true;
        }
        proof {
            assert(!collapsed_ancestor(vs, gid, (steps + 1) as nat));
        }
        cur = pid;
        steps = steps + 1;
    }
    false
}

// ─── Folded groups ──────────────────────────────────────────────────

/// Every group of `gs` whose enclosing group is `x` has its id in `out`.
pub open spec fn children_in(gs: Seq<GroupView>, x: u32, out: Seq<u32>) -> bool {
    forall|i: int| 0 <= i < gs.len() && gs[i].parent == Some(x) ==> #[trigger] out.contains(gs[i].id)
}

/// The number of groups of `gs` whose id is not in `out`.
pub open spec fn missing(gs: Seq<GroupView>, out: Seq<u32>) -> nat
    decreases gs.len(),
{
    if gs.len() == 0 {
        0
    } else {
        missing(gs.drop_last(), out) + if out.contains(gs.last().id) {
            0nat
        } else {
            1nat
        }
    }
}

proof fn lemma_missing_mono(gs: Seq<GroupView>, a: Seq<u32>, b: Seq<u32>)
    requires
        forall|x: u32| a.contains(x) ==> b.contains(x),
    ensures
        missing(gs, b) <= missing(gs, a),
    decreases gs.len(),
{
    if gs.len() > 0 {
        lemma_missing_mono(gs.drop_last(), a, b);
    }
}

proof fn lemma_missing_strict(gs: Seq<GroupView>, a: Seq<u32>, b: Seq<u32>, i: int)
    requires
        forall|x: u32| a.contains(x) ==> b.contains(x),
        0 <= i < gs.len(),
        b.contains(gs[i].id),
        !a.contains(gs[i].id),
    ensures
        missing(gs, b) < missing(gs, a),
    decreases gs.len(),
{
    if i == gs.len() - 1 {
        lemma_missing_mono(gs.drop_last(), a, b);
    } else {
        assert(gs.drop_last()[i] == gs[i]);
        lemma_missing_strict(gs.drop_last(), a, b, i);
    }
}

proof fn lemma_children_in_mono(gs: Seq<GroupView>, x: u32, a: Seq<u32>, b: Seq<u32>)
    requires
        children_in(gs, x, a),
        forall|y: u32| a.contains(y) ==> b.contains(y),
    ensures
        children_in(gs, x, b),
{
    assert forall|i: int| 0 <= i < gs.len() && gs[i].parent == Some(x) implies #[trigger] b.contains(
        gs[i].id,
    ) by {
        assert(a.contains(gs[i].id));
    }
}

/// A set of ids that holds every collapsed group and every child of each of
/// its members holds every folded group.
proof fn lemma_closed_holds_folded(gs: Seq<GroupView>, out: Seq<u32>, x: u32, k: nat)
    requires
        ids_unique(gs),
        forall|i: int| 0 <= i < gs.len() && gs[i].collapsed ==> #[trigger] out.contains(gs[i].id),
        forall|y: u32| out.contains(y) ==> children_in(gs, y, out),
        collapsed_ancestor(gs, x, k),
    ensures
        out.contains(x),
    decreases k,
{
    assert(has_id(gs, x));
    let ix = index_of(gs, x);
    if k == 0 {
        assert(gs[ix].collapsed);
    } else {
        let p = parent_link(gs, x)->0;
        assert(collapsed_ancestor(gs, p, (k - 1) as nat));
        lemma_closed_holds_folded(gs, out, p, (k - 1) as nat);
        assert(children_in(gs, p, out));
        assert(gs[ix].parent == Some(p));
    }
}

/// Whether `x` is an element of `v`.
pub(crate) fn vec_contains(v: &Vec<u32>, x: u32) -> (b: bool)
    ensures
        b == v@.contains(x),
{
    let mut i: usize = 0;
    while i < v.len()
        invariant
            i <= v.len(),
            forall|j: int| 0 <= j < i ==> v@[j] != x,
        decreases v.len() - i,
    {
        if v[i] == x {
            return true;
        }
        i = i + 1;
    }
    false
}

/// Adds to `out` the ids of the groups nested (at any depth) inside group
/// `pid`, not descending through groups whose id `out` already holds.
fn descendants(pid: u32, gs: &Vec<Group>, out: &mut Vec<u32>)
    requires
        ids_unique(views(gs@)),
        folded(views(gs@), pid),
        forall|x: u32| old(out)@.contains(x) ==> folded(views(gs@), x),
        old(out)@.no_duplicates(),
    ensures
        forall|x: u32| old(out)@.contains(x) ==> final(out)@.contains(x),
        forall|x: u32| final(out)@.contains(x) ==> folded(views(gs@), x),
        children_in(views(gs@), pid, final(out)@),
        forall|x: u32|
            final(out)@.contains(x) && !old(out)@.contains(x) ==> children_in(
                views(gs@),
                x,
                final(out)@,
            ),
        final(out)@.no_duplicates(),
    decreases missing(views(gs@), old(out)@),
{
    let ghost vs = views(gs@);
    let ghost out0 = out@;
    assert(out0 == old(out)@);
    let mut i: usize = 0;
    while i < gs.len()
        invariant
            vs == views(gs@),
            ids_unique(vs),
            folded(vs, pid),
            i <= gs.len(),
            forall|x: u32| out0.contains(x) ==> out@.contains(x),
            forall|x: u32| out@.contains(x) ==> folded(vs, x),
            forall|j: int| 0 <= j < i && vs[j].parent == Some(pid) ==> #[trigger] out@.contains(vs[j].id),
            forall|x: u32| out@.contains(x) && !out0.contains(x) ==> children_in(vs, x, out@),
            out@.no_duplicates(),
            missing(vs, out@) <= missing(vs, out0),
            out0 == old(out)@,
        decreases gs.len() - i,
    {
        let is_child = match gs[i].parent {
            Some(p) => p == pid,
            None => false,
        };
        if is_child && !vec_contains(out, gs[i].id) {
            let id = gs[i].id;
            let ghost prev = out@;
            out.push(id);
            proof {
                assert(vs[i as int] == gs@[i as int]@);
                assert(out@.contains(id)) by {
                    assert(out@[out@.len() - 1] == id);
                }
                assert forall|x: u32| prev.contains(x) implies out@.contains(x) by {
                    let j = choose|j: int| 0 <= j < prev.len() && prev[j] == x;
                    assert(out@[j] == x);
                }
                assert forall|x: u32| out@.contains(x) implies folded(vs, x) by {
                    if x != id {
                        let j = choose|j: int| 0 <= j < out@.len() && out@[j] == x;
                        assert(prev[j] == x);
                    } else {
                        lemma_folded_has_id(vs, pid);
                        lemma_child_folded(vs, i as int);
                    }
                }
                assert forall|x: u32| out0.contains(x) implies out@.contains(x) by {
                    assert(prev.contains(x));
                }
                assert(!out0.contains(id));
                lemma_missing_strict(vs, out0, out@, i as int);
                lemma_folded_has_id(vs, pid);
                lemma_child_folded(vs, i as int);
            }
            let ghost before_call = out@;
            assert(missing(views(gs@), out@) < missing(views(gs@), old(out)@));
            descendants(id, gs, out);
            proof {
                assert forall|x: u32| before_call.contains(x) implies out@.contains(x) by {}
                assert forall|x: u32| out@.contains(x) && !out0.contains(x) implies children_in(
                    vs,
                    x,
                    out@,
                ) by {
                    if prev.contains(x) {
                        lemma_children_in_mono(vs, x, prev, out@);
                    } else if x != id && before_call.contains(x) {
                        let j = choose|j: int| 0 <= j < before_call.len() && before_call[j] == x;
                        assert(prev[j] == x);
                    }
                }
                assert forall|j: int|
                    0 <= j <= i && vs[j].parent == Some(pid) implies #[trigger] out@.contains(
                    vs[j].id,
                ) by {
                    if j < i {
                        assert(prev.contains(vs[j].id));
                    } else {
                        assert(before_call.contains(id));
                    }
                }
                assert forall|x: u32| out0.contains(x) implies out@.contains(x) by {
                    assert(prev.contains(x));
                }
                lemma_missing_mono(vs, out0, out@);
            }
        } else {
            proof {
                assert(vs[i as int] == gs@[i as int]@);
            }
        }
        i = i + 1;
    }
}

/// The elements of `v` in increasing order, each once.
fn sort_dedup(v: &Vec<u32>) -> (res: Vec<u32>)
    ensures
        forall|i: int, j: int| 0 <= i < j < res.len() ==> res@[i] < res@[j],
        forall|x: u32| res@.contains(x) <==> v@.contains(x),
{
    let mut res: Vec<u32> = Vec::new();
    let mut k: usize = 0;
    while k < v.len()
        invariant
            k <= v.len(),
            forall|i: int, j: int| 0 <= i < j < res.len() ==> res@[i] < res@[j],
            forall|x: u32| res@.contains(x) <==> v@.take(k as int).contains(x),
        decreases v.len() - k,
    {
        let x = v[k];
        let mut p: usize = 0;
        while p < res.len() && res[p] < x
            invariant
                p <= res.len(),
                forall|q: int| 0 <= q < p ==> res@[q] < x,
            decreases res.len() - p,
        {
            p = p + 1;
        }
        let ghost r0 = res@;
        proof {
            assert(v@.take(k + 1) =~= v@.take(k as int).push(x));
        }
        if p < res.len() && res[p] == x {
            proof {
                assert forall|y: u32| res@.contains(y) <==> v@.take(k + 1).contains(y) by {
                    if y == x {
                        assert(res@[p as int] == x);
                        assert(v@.take(k + 1)[k as int] == x);
                    }
                    if v@.take(k as int).contains(y) {
                        let q = choose|q: int| 0 <= q < k && #[trigger] v@.take(k as int)[q] == y;
                        assert(v@.take(k + 1)[q] == y);
                    }
                    if v@.take(k + 1).contains(y) && y != x {
                        let q = choose|q: int| 0 <= q < k + 1 && #[trigger] v@.take(k + 1)[q] == y;
                        assert(v@.take(k as int)[q] == y);
                    }
                }
            }
        } else {
            res.insert(p, x);
            proof {
                assert forall|i: int, j: int| 0 <= i < j < res.len() implies res@[i] < res@[j] by {
                    if i < p && j > p {
                        assert(r0[i] < x);
                        assert(res@[j] == r0[j - 1]);
                        assert(r0[p as int] >= x);
                        if j - 1 > p {
                            assert(r0[p as int] < r0[j - 1]);
                        }
                    } else if i == p {
                        assert(res@[j] == r0[j - 1]);
                        assert(r0[p as int] >= x);
                        if j - 1 > p {
                            assert(r0[p as int] < r0[j - 1]);
                        }
                    } else if j == p {
                        assert(r0[i] < x);
                    } else if i > p {
                        assert(res@[i] == r0[i - 1] && res@[j] == r0[j - 1]);
                    }
                }
                assert forall|y: u32| res@.contains(y) <==> v@.take(k + 1).contains(y) by {
                    if y == x {
                        assert(res@[p as int] == x);
                        assert(v@.take(k + 1)[k as int] == x);
                    } else {
                        if v@.take(k as int).contains(y) {
                            let q = choose|q: int| 0 <= q < k && #[trigger] v@.take(k as int)[q] == y;
                            assert(v@.take(k + 1)[q] == y);
                        }
                        if res@.contains(y) {
                            let q = choose|q: int| 0 <= q < res.len() && #[trigger] res@[q] == y;
                            if q < p {
                                assert(r0[q] == y);
                            } else {
                                assert(r0[q - 1] == y);
                            }
                        }
                        if r0.contains(y) {
                            let q = choose|q: int| 0 <= q < r0.len() && #[trigger] r0[q] == y;
                            if q < p {
                                assert(res@[q] == y);
                            } else {
                                assert(res@[q + 1] == y);
                            }
                        }
                        if v@.take(k + 1).contains(y) {
                            let q = choose|q: int| 0 <= q < k + 1 && #[trigger] v@.take(k + 1)[q] == y;
                            assert(v@.take(k as int)[q] == y);
                        }
                    }
                }
            }
        }
        k = k + 1;
    }
    proof {
        assert(v@.take(v.len() as int) =~= v@);
    }
    res
}

/// The ids of the folded groups of `gs` (the collapsed groups and every
/// group nested inside one of them), in increasing order.
pub(crate) fn collapsed_ids(gs: &Vec<Group>) -> (out: Vec<u32>)
    requires
        ids_unique(views(gs@)),
    ensures
        forall|x: u32| out@.contains(x) <==> folded(views(gs@), x),
        forall|i: int, j: int| 0 <= i < j < out.len() ==> out@[i] < out@[j],
{
    let ghost vs = views(gs@);
    let mut out: Vec<u32> = Vec::new();
    let mut i: usize = 0;
    while i < gs.len()
        invariant
            vs == views(gs@),
            ids_unique(vs),
            i <= gs.len(),
            forall|x: u32| out@.contains(x) ==> folded(vs, x),
            forall|x: u32| out@.contains(x) ==> children_in(vs, x, out@),
            forall|j: int| 0 <= j < i && vs[j].collapsed ==> #[trigger] out@.contains(vs[j].id),
            out@.no_duplicates(),
        decreases gs.len() - i,
    {
        proof {
            assert(vs[i as int] == gs@[i as int]@);
            lemma_index_of_unique(vs, i as int);
        }
        let id = gs[i].id;
        let seed = gs[i].collapsed || ancestor_collapsed(gs, id);
        if seed && !vec_contains(&out, id) {
            let ghost prev = out@;
            out.push(id);
            proof {
                assert(out@[out@.len() - 1] == id);
                if gs[i as int].collapsed {
                    assert(collapsed_ancestor(vs, id, 0));
                } else {
                    let k = choose|k: nat| k >= 1 && #[trigger] collapsed_ancestor(vs, id, k);
                    assert(collapsed_ancestor(vs, id, k));
                }
                assert(folded(vs, id));
                assert forall|x: u32| prev.contains(x) implies out@.contains(x) by {
                    let j = choose|j: int| 0 <= j < prev.len() && prev[j] == x;
                    assert(out@[j] == x);
                }
                assert forall|x: u32| out@.contains(x) implies folded(vs, x) by {
                    if x != id {
                        let j = choose|j: int| 0 <= j < out@.len() && out@[j] == x;
                        assert(prev[j] == x);
                    }
                }
            }
            let ghost before_call = out@;
            descendants(id, gs, &mut out);
            proof {
                assert forall|x: u32| out@.contains(x) implies children_in(vs, x, out@) by {
                    if prev.contains(x) {
                        lemma_children_in_mono(vs, x, prev, out@);
                    }
                }
                assert forall|j: int| 0 <= j <= i && vs[j].collapsed implies #[trigger] out@.contains(
                    vs[j].id,
                ) by {
                    if j < i {
                        assert(prev.contains(vs[j].id));
                        assert(before_call.contains(vs[j].id));
                    } else {
                        assert(before_call.contains(id));
                    }
                }
            }
        }
        i = i + 1;
    }
    proof {
        assert forall|x: u32| folded(vs, x) implies out@.contains(x) by {
            let k = choose|k: nat| #[trigger] collapsed_ancestor(vs, x, k);
            lemma_closed_holds_folded(vs, out@, x, k);
        }
    }
    sort_dedup(&out)
}

// ─── Lines hidden by folded groups ──────────────────────────────────

/// The largest element of `s`, or `0` when `s` is empty.
pub open spec fn seq_max(s: Seq<u32>) -> u32
    decreases s.len(),
{
    if s.len() == 0 {
        0
    } else {
        let m = seq_max(s.drop_last());
        if s.last() > m {
            s.last()
        } else {
            m
        }
    }
}

/// The largest member of any group of `gs`, or `0` when there is none.
pub open spec fn max_member(gs: Seq<GroupView>) -> u32
    decreases gs.len(),
{
    if gs.len() == 0 {
        0
    } else {
        let a = max_member(gs.drop_last());
        let b = seq_max(gs.last().members);
        if b > a {
            b
        } else {
            a
        }
    }
}

/// The table of hidden lines that the groups `gs` give: one entry for each
/// line up to the largest member, `true` where the line is hidden.
pub open spec fn hidden_table(gs: Seq<GroupView>) -> Seq<bool> {
    Seq::new(max_member(gs) as nat + 1, |r: int| line_hidden(gs, r as u32))
}

/// Some group among the first `n` of `gs` is folded and has member `r`.
pub open spec fn marked(gs: Seq<GroupView>, n: int, r: u32) -> bool {
    exists|i: int| 0 <= i < n && folded(gs, gs[i].id) && #[trigger] gs[i].members.contains(r)
}

pub proof fn lemma_seq_max_bound(s: Seq<u32>, j: int)
    requires
        0 <= j < s.len(),
    ensures
        s[j] <= seq_max(s),
    decreases s.len(),
{
    if j < s.len() - 1 {
        assert(s.drop_last()[j] == s[j]);
        lemma_seq_max_bound(s.drop_last(), j);
    }
}

pub proof fn lemma_max_member_bound(gs: Seq<GroupView>, i: int, j: int)
    requires
        0 <= i < gs.len(),
        0 <= j < gs[i].members.len(),
    ensures
        gs[i].members[j] <= max_member(gs),
    decreases gs.len(),
{
    if i < gs.len() - 1 {
        assert(gs.drop_last()[i] == gs[i]);
        lemma_max_member_bound(gs.drop_last(), i, j);
    } else {
        lemma_seq_max_bound(gs[i].members, j);
    }
}

/// Every member of every group of `gs` is at most `max_member(gs)`.
pub proof fn lemma_members_bounded(gs: Seq<GroupView>, r: u32)
    requires
        line_hidden(gs, r),
    ensures
        r <= max_member(gs),
{
    let i = choose|i: int| 0 <= i < gs.len() && folded(gs, gs[i].id) && #[trigger] gs[i].members.contains(r);
    let j = choose|j: int| 0 <= j < gs[i].members.len() && gs[i].members[j] == r;
    lemma_max_member_bound(gs, i, j);
}

/// The largest element of `v`, or `0` when `v` is empty.
fn max_of(v: &Vec<u32>) -> (m: u32)
    ensures
        m == seq_max(v@),
{
    let mut m: u32 = 0;
    let mut j: usize = 0;
    while j < v.len()
        invariant
            j <= v.len(),
            m == seq_max(v@.take(j as int)),
        decreases v.len() - j,
    {
        proof {
            assert(v@.take(j + 1).drop_last() =~= v@.take(j as int));
        }
        if v[j] > m {
            m = v[j];
        }
        j = j + 1;
    }
    proof {
        assert(v@.take(v.len() as int) =~= v@);
    }
    m
}

/// The largest member of any group of `gs`, or `0` when there is none.
fn max_member_of(gs: &Vec<Group>) -> (m: u32)
    ensures
        m == max_member(views(gs@)),
{
    let ghost vs = views(gs@);
    let mut m: u32 = 0;
    let mut i: usize = 0;
    while i < gs.len()
        invariant
            vs == views(gs@),
            i <= gs.len(),
            m == max_member(vs.take(i as int)),
        decreases gs.len() - i,
    {
        proof {
            assert(vs.take(i + 1).drop_last() =~= vs.take(i as int));
            assert(vs.take(i + 1).last() == gs@[i as int]@);
        }
        let b = max_of(&gs[i].members);
        if b > m {
            m = b;
        }
        i = i + 1;
    }
    proof {
        assert(vs.take(gs.len() as int) =~= vs);
    }
    m
}

/// The table of lines hidden by the folded groups of `gs`.
pub(crate) fn hidden_lines(gs: &Vec<Group>) -> (t: Vec<bool>)
    requires
        ids_unique(views(gs@)),
    ensures
        t@ == hidden_table(views(gs@)),
{
    let ghost vs = views(gs@);
    let mx = max_member_of(gs);
    let mut t: Vec<bool> = Vec::new();
    let mut k: u32 = 0;
    loop
        invariant_except_break
            k <= mx,
            t.len() == k,
            forall|r: int| 0 <= r < t.len() ==> !t@[r],
        ensures
            t.len() == mx as nat + 1,
            forall|r: int| 0 <= r < t.len() ==> !t@[r],
        decreases mx - k,
    {
        t.push(false);
        if k == mx {
            break;
        }
        k = k + 1;
    }
    let ids = collapsed_ids(gs);
    let mut i: usize = 0;
    while i < gs.len()
        invariant
            vs == views(gs@),
            i <= gs.len(),
            t.len() == mx as nat + 1,
            mx == max_member(vs),
            forall|x: u32| ids@.contains(x) <==> folded(vs, x),
            forall|r: int| 0 <= r < t.len() ==> t@[r] == marked(vs, i as int, r as u32),
        decreases gs.len() - i,
    {
        proof {
            assert(vs[i as int] == gs@[i as int]@);
        }
        if vec_contains(&ids, gs[i].id) {
            let ghost ms = vs[i as int].members;
            let mut j: usize = 0;
            while j < gs[i].members.len()
                invariant
                    vs == views(gs@),
                    i < gs.len(),
                    j <= ms.len(),
                    ms == gs@[i as int].members@,
                    vs[i as int].members == ms,
                    t.len() == mx as nat + 1,
                    mx == max_member(vs),
                    folded(vs, vs[i as int].id),
                    forall|r: int|
                        0 <= r < t.len() ==> t@[r] == (marked(vs, i as int, r as u32) || ms.take(
                            j as int,
                        ).contains(r as u32)),
                decreases ms.len() - j,
            {
                let m = gs[i].members[j];
                proof {
                    lemma_max_member_bound(vs, i as int, j as int);
                    assert(ms.take(j + 1) =~= ms.take(j as int).push(m));
                }
                t.set(m as usize, true);
                proof {
                    assert forall|r: int| 0 <= r < t.len() implies t@[r] == (marked(
                        vs,
                        i as int,
                        r as u32,
                    ) || ms.take(j + 1).contains(r as u32)) by {
                        if r == m as int {
                            assert(ms.take(j + 1)[j as int] == m);
                        } else {
                            if ms.take(j + 1).contains(r as u32) {
                                let q = choose|q: int| 0 <= q < j + 1 && #[trigger] ms.take(j + 1)[q] == r as u32;
                                assert(ms.take(j as int)[q] == r as u32);
                            }
                        }
                    }
                }
                j = j + 1;
            }
            proof {
                assert(ms.take(ms.len() as int) =~= ms);
                assert forall|r: int| 0 <= r < t.len() implies t@[r] == marked(vs, i + 1, r as u32) by {
                    if marked(vs, i + 1, r as u32) && !marked(vs, i as int, r as u32) {
                        let q = choose|q: int|
                            0 <= q < i + 1 && folded(vs, vs[q].id) && #[trigger] vs[q].members.contains(
                                r as u32,
                            );
                        assert(q == i);
                    }
                    if ms.contains(r as u32) {
                        assert(vs[i as int].members.contains(r as u32));
                    }
                }
            }
        } else {
            proof {
                assert forall|r: int| 0 <= r < t.len() implies t@[r] == marked(vs, i + 1, r as u32) by {
                    if marked(vs, i + 1, r as u32) && !marked(vs, i as int, r as u32) {
                        let q = choose|q: int|
                            0 <= q < i + 1 && folded(vs, vs[q].id) && #[trigger] vs[q].members.contains(
                                r as u32,
                            );
                        assert(q == i);
                    }
                }
            }
        }
        i = i + 1;
    }
    proof {
        assert forall|r: int| 0 <= r < t.len() implies t@[r] == hidden_table(vs)[r] by {
            assert(marked(vs, vs.len() as int, r as u32) == line_hidden(vs, r as u32));
        }
        assert(t@ =~= hidden_table(vs));
    }
    t
}

// ─── Editing group lists ────────────────────────────────────────────

/// The enclosing group named by a `parent_id` argument: ids are positive,
/// and any other value means "none".
pub open spec fn parent_arg(parent_id: i32) -> Option<u32> {
    if parent_id > 0 {
        Some(parent_id as u32)
    } else {
        None
    }
}

/// The depth of a new group of list `gs` whose enclosing group is `parent`:
/// one more than the enclosing group's depth when that group is in `gs`,
/// else `0`.
pub open spec fn depth_under(gs: Seq<GroupView>, parent: Option<u32>) -> u32 {
    match parent {
        Some(p) => if has_id(gs, p) {
            (gs[index_of(gs, p)].depth + 1) as u32
        } else {
            0
        },
        None => 0,
    }
}

/// `gs` with the collapsed flag of its `i`-th group flipped.
pub open spec fn flip_at(gs: Seq<GroupView>, i: int) -> Seq<GroupView> {
    gs.update(i, GroupView { collapsed: !gs[i].collapsed, ..gs[i] })
}

/// Group `g` after the removal of group `gid`: a direct child of `gid`
/// becomes a top-level group at depth `0`.
pub open spec fn detach(g: GroupView, gid: u32) -> GroupView {
    if g.parent == Some(gid) {
        GroupView { parent: None, depth: 0, ..g }
    } else {
        g
    }
}

/// `gs` without the groups with id `gid`, the children of `gid` detached.
pub open spec fn prune(gs: Seq<GroupView>, gid: u32) -> Seq<GroupView>
    decreases gs.len(),
{
    if gs.len() == 0 {
        Seq::empty()
    } else {
        let rest = prune(gs.drop_last(), gid);
        if gs.last().id == gid {
            rest
        } else {
            rest.push(detach(gs.last(), gid))
        }
    }
}

/// Every group of `prune(gs, gid)` is a detached group of `gs` other than
/// `gid`, and the order of ids is kept.
pub proof fn lemma_prune(gs: Seq<GroupView>, gid: u32)
    ensures
        prune(gs, gid).len() <= gs.len(),
        forall|i: int|
            0 <= i < prune(gs, gid).len() ==> exists|j: int|
                0 <= j < gs.len() && gs[j].id != gid && #[trigger] prune(gs, gid)[i] == detach(gs[j], gid),
        (forall|i: int, j: int| 0 <= i < j < gs.len() ==> gs[i].id < gs[j].id) ==> (forall|i: int, j: int|
            0 <= i < j < prune(gs, gid).len() ==> prune(gs, gid)[i].id < prune(gs, gid)[j].id),
    decreases gs.len(),
{
    if gs.len() > 0 {
        let d = gs.drop_last();
        lemma_prune(d, gid);
        let rest = prune(d, gid);
        let p = prune(gs, gid);
        assert forall|i: int| 0 <= i < p.len() implies exists|j: int|
            0 <= j < gs.len() && gs[j].id != gid && #[trigger] p[i] == detach(gs[j], gid) by {
            if i < rest.len() {
                let j = choose|j: int| 0 <= j < d.len() && d[j].id != gid && #[trigger] rest[i] == detach(d[j], gid);
                assert(gs[j] == d[j]);
            } else {
                assert(p[i] == detach(gs[gs.len() - 1], gid));
            }
        }
        if forall|i: int, j: int| 0 <= i < j < gs.len() ==> gs[i].id < gs[j].id {
            assert forall|i: int, j: int| 0 <= i < j < p.len() implies p[i].id < p[j].id by {
                if j >= rest.len() {
                    let k = choose|k: int| 0 <= k < d.len() && d[k].id != gid && #[trigger] rest[i] == detach(d[k], gid);
                    assert(gs[k] == d[k]);
                    assert(gs[k].id < gs[gs.len() - 1].id);
                } else {
                    assert(rest[i].id < rest[j].id);
                }
            }
        }
    }
}

/// `gs` without the groups with id `gid`, the children of `gid` detached.
pub(crate) fn prune_list(gs: Vec<Group>, gid: u32) -> (res: Vec<Group>)
    ensures
        views(res@) == prune(views(gs@), gid),
{
    let ghost orig = views(gs@);
    let mut rest = gs;
    let mut res: Vec<Group> = Vec::new();
    while rest.len() > 0
        invariant
            views(rest@) == orig.take(rest.len() as int),
            rest.len() <= orig.len(),
            prune(orig, gid) == prune(views(rest@), gid) + views(res@),
        decreases rest.len(),
    {
        let ghost before = views(rest@);
        let mut g = rest.pop().unwrap();
        proof {
            assert(before.drop_last() =~= views(rest@));
            assert(before.last() == g@);
            assert(views(rest@) =~= orig.take(rest.len() as int));
        }
        if g.id != gid {
            let ghost res0 = views(res@);
            let is_child = match g.parent {
                Some(p) => p == gid,
                None => false,
            };
            if is_child {
                g.parent = None;
                g.depth = 0;
            }
            proof {
                assert(g@ == detach(before.last(), gid));
            }
            res.insert(0, g);
            proof {
                assert(views(res@) =~= seq![g@] + res0);
                assert(prune(before, gid) == prune(views(rest@), gid).push(g@));
                assert(prune(views(rest@), gid).push(g@) + res0 =~= prune(views(rest@), gid) + views(res@));
            }
        }
    }
    proof {
        assert(views(rest@) =~= Seq::empty());
        assert(prune(views(rest@), gid) =~= Seq::empty());
        assert(views(res@) =~= prune(orig, gid));
    }
    res
}

/// Within the table of hidden lines of `gs`, line `r` is hidden exactly when
/// the groups hide it.
pub proof fn lemma_table_hides(gs: Seq<GroupView>, r: u32)
    ensures
        (r < hidden_table(gs).len() && hidden_table(gs)[r as int]) == line_hidden(gs, r),
{
    if line_hidden(gs, r) {
        lemma_members_bounded(gs, r);
    }
}

/// The number of nesting levels of `gs`: the largest `depth + 1`, or `0`
/// when there is no group.
pub open spec fn max_depth(gs: Seq<GroupView>) -> int
    decreases gs.len(),
{
    if gs.len() == 0 {
        0
    } else {
        let a = max_depth(gs.drop_last());
        let b = gs.last().depth + 1;
        if b > a {
            b
        } else {
            a
        }
    }
}

/// The number of nesting levels of `gs`.
pub(crate) fn depth_levels(gs: &Vec<Group>) -> (d: u32)
    requires
        forall|i: int| 0 <= i < gs.len() ==> #[trigger] gs@[i].depth < u32::MAX,
    ensures
        d == max_depth(views(gs@)),
{
    let ghost vs = views(gs@);
    let mut d: u32 = 0;
    let mut i: usize = 0;
    while i < gs.len()
        invariant
            vs == views(gs@),
            i <= gs.len(),
            forall|i: int| 0 <= i < gs.len() ==> #[trigger] gs@[i].depth < u32::MAX,
            d == max_depth(vs.take(i as int)),
        decreases gs.len() - i,
    {
        proof {
            assert(vs.take(i + 1).drop_last() =~= vs.take(i as int));
            assert(vs.take(i + 1).last() == gs@[i as int]@);
        }
        let b = gs[i].depth + 1;
        if b > d {
            d = b;
        }
        i = i + 1;
    }
    proof {
        assert(vs.take(gs.len() as int) =~= vs);
    }
    d
}

impl Group {
    /// The smallest and the largest member, or `None` for a group without
    /// members.
    pub fn member_bounds(&self) -> (res: Option<(u32, u32)>)
        ensures
            match res {
                None => self.members@.len() == 0,
                Some((lo, hi)) => {
                    &&& self.members@.contains(lo)
                    &&& self.members@.contains(hi)
                    &&& forall|j: int|
                        0 <= j < self.members@.len() ==> lo <= #[trigger] self.members@[j] <= hi
                },
            },
    {
        if self.members.len() == 0 {
            return None;
        }
        let mut lo = self.members[0];
        let mut hi = self.members[0];
        let mut j: usize = 1;
        while j < self.members.len()
            invariant
                1 <= j <= self.members.len(),
                self.members@.contains(lo),
                self.members@.contains(hi),
                forall|k: int| 0 <= k < j ==> lo <= #[trigger] self.members@[k] <= hi,
            decreases self.members.len() - j,
        {
            let m = self.members[j];
            if m < lo {
                lo = m;
            }
            if m > hi {
                hi = m;
            }
            j = j + 1;
        }
        Some((lo, hi))
    }
}

} // verus!

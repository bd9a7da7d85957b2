use vstd::prelude::*;

verus! {

broadcast use vstd::utf8::encode_utf8_decode_utf8;

/// The identity of a module: the address that owns it and its name.
pub struct ModuleId {
    pub address: Vec<u8>,
    pub name: String,
}

impl View for ModuleId {
    type V = (Seq<u8>, Seq<char>);

    open spec fn view(&self) -> (Seq<u8>, Seq<char>) {
        (self.address@, self.name@)
    }
}

/// What the sorter needs of a decoded module: its own identity and the
/// identities of the modules it refers to.
pub struct ModuleInfo {
    pub id: ModuleId,
    pub deps: Vec<ModuleId>,
}

/// Member `a` of the bundle refers to member `b` of the same bundle.
pub open spec fn depends(mods: Seq<ModuleInfo>, a: int, b: int) -> bool {
    exists|k: int| 0 <= k < mods[a].deps@.len() && #[trigger] mods[a].deps@[k]@ == mods[b].id@
}

/// Two members of the bundle share one identity.
pub open spec fn has_duplicate(mods: Seq<ModuleInfo>) -> bool {
    exists|i: int, j: int|
        0 <= i < j < mods.len() && #[trigger] mods[i].id@ == #[trigger] mods[j].id@
}

/// `order` lists every member exactly once, and each member comes after every
/// member it depends on.
pub open spec fn is_dependency_order(mods: Seq<ModuleInfo>, order: Seq<usize>) -> bool {
    &&& order.len() == mods.len()
    &&& forall|p: int| 0 <= p < order.len() ==> (#[trigger] order[p] as int) < mods.len()
    &&& forall|p: int, q: int|
        0 <= p < q < order.len() ==> (#[trigger] order[p]) != (#[trigger] order[q])
    &&& deps_come_first(mods, order)
}

/// Every dependency of the member at position `p` stands at a position before `p`.
pub open spec fn deps_come_first(mods: Seq<ModuleInfo>, order: Seq<usize>) -> bool {
    forall|p: int, j: int|
        0 <= p < order.len() && 0 <= j < mods.len() && #[trigger] depends(mods, order[p] as int, j)
            ==> exists|r: int| 0 <= r < p && #[trigger] order[r] as int == j
}

/// Member `i` may be placed once the members in `done` are placed: all it
/// depends on is among them.
pub open spec fn ready(mods: Seq<ModuleInfo>, done: Seq<usize>, i: int) -> bool {
    forall|j: int| 0 <= j < mods.len() && #[trigger] depends(mods, i, j) ==> done.contains(j as usize)
}

/// Each position holds the first member, in input order, that is not yet
/// placed and whose dependencies are all placed before it.
pub open spec fn is_stable(mods: Seq<ModuleInfo>, order: Seq<usize>) -> bool {
    forall|k: int, i: int|
        0 <= k < order.len() && 0 <= i < order[k] && !order.take(k).contains(i as usize)
            ==> !#[trigger] ready(mods, order.take(k), i)
}

fn same_bytes(a: &[u8], b: &[u8]) -> (r: bool)
    ensures
        r == (a@ == b@),
{
    if a.len() != b.len() {
        return false;
    }
    let mut i: usize = 0;
    while i < a.len()
        invariant
            a@.len() == b@.len(),
            0 <= i <= a@.len(),
            forall|k: int| 0 <= k < i ==> a@[k] == b@[k],
        decreases a@.len() - i,
    {
        if a[i] != b[i] {
            return false;
        }
        i = i + 1;
    }
    assert(a@ =~= b@);
    true
}

impl ModuleId {
    /// Whether two identities name the same module.
    pub fn same_as(&self, other: &ModuleId) -> (r: bool)
        ensures
            r == (self@ == other@),
    {
        let same_address = same_bytes(self.address.as_slice(), other.address.as_slice());
        let same_name = same_bytes(self.name.as_str().as_bytes(), other.name.as_str().as_bytes());
        proof {
            if same_name {
                assert(vstd::utf8::decode_utf8(vstd::utf8::encode_utf8(self.name@))
                    == vstd::utf8::decode_utf8(vstd::utf8::encode_utf8(other.name@)));
            }
        }
        same_address && same_name
    }
}

/// Whether member `a` refers to member `b`.
fn refers_to(mods: &Vec<ModuleInfo>, a: usize, b: usize) -> (r: bool)
    requires
        a < mods@.len(),
        b < mods@.len(),
    ensures
        r == depends(mods@, a as int, b as int),
{
    let deps = &mods[a].deps;
    let mut k: usize = 0;
    while k < deps.len()
        invariant
            deps == &mods@[a as int].deps,
            b < mods@.len(),
            0 <= k <= deps@.len(),
            forall|k2: int| 0 <= k2 < k ==> deps@[k2]@ != mods@[b as int].id@,
        decreases deps@.len() - k,
    {
        if deps[k].same_as(&mods[b].id) {
            return true;
        }
        k = k + 1;
    }
    false
}


/// Distinct indices stay distinct as integers.
proof fn lemma_distinct_as_ints(o: Seq<usize>)
    requires
        forall|p: int, q: int| 0 <= p < q < o.len() ==> (#[trigger] o[p]) != (#[trigger] o[q]),
    ensures
        o.map_values(|x: usize| x as int).no_duplicates(),
{
    let m = o.map_values(|x: usize| x as int);
    assert forall|p: int, q: int| 0 <= p < m.len() && 0 <= q < m.len() && p != q implies m[p]
        != m[q] by {
        if p < q {
            assert(o[p] != o[q]);
        } else {
            assert(o[q] != o[p]);
        }
    }
}

/// A list of distinct indices below `n` that holds every index below `n` has
/// at least `n` entries.
proof fn lemma_covering_len(o: Seq<usize>, n: int)
    requires
        0 <= n <= usize::MAX,
        forall|i: int| 0 <= i < n ==> #[trigger] o.contains(i as usize),
    ensures
        o.len() >= n,
{
    broadcast use vstd::set::group_set_axioms, vstd::seq_lib::seq_to_set_is_finite;

    let m = o.map_values(|x: usize| x as int);
    let r = vstd::set_lib::set_int_range(0, n);
    assert forall|i: int| r.contains(i) implies m.to_set().contains(i) by {
        assert(o.contains(i as usize));
        let p = choose|p: int| 0 <= p < o.len() && o[p] == i as usize;
        assert(m[p] == i);
    }
    vstd::set_lib::lemma_len_subset(r, m.to_set());
    vstd::set_lib::lemma_int_range(0, n);
    m.lemma_cardinality_of_set();
}

/// `n` distinct indices below `n` hold every index below `n`.
proof fn lemma_distinct_covers(o: Seq<usize>, n: int, i: int)
    requires
        o.len() == n,
        forall|p: int| 0 <= p < o.len() ==> (#[trigger] o[p] as int) < n,
        forall|p: int, q: int| 0 <= p < q < o.len() ==> (#[trigger] o[p]) != (#[trigger] o[q]),
        0 <= i < n,
    ensures
        o.contains(i as usize),
{
    broadcast use vstd::set::group_set_axioms, vstd::seq_lib::seq_to_set_is_finite;

    let m = o.map_values(|x: usize| x as int);
    let r = vstd::set_lib::set_int_range(0, n);
    lemma_distinct_as_ints(o);
    m.unique_seq_to_set();
    vstd::set_lib::lemma_int_range(0, n);
    assert(m.to_set().subset_of(r));
    vstd::set_lib::lemma_subset_equality(m.to_set(), r);
    assert(r.contains(i));
    assert(m.to_set().contains(i));
    let p = choose|p: int| 0 <= p < m.len() && m[p] == i;
    assert(o[p] == i as usize);
}

/// Where every member not in `done` waits on another member not in `done`,
/// no order can place the bundle.
proof fn lemma_stuck_has_no_order(mods: Seq<ModuleInfo>, done: Seq<usize>, u: int, o: Seq<usize>)
    requires
        0 <= u < mods.len(),
        !done.contains(u as usize),
        forall|i: int|
            0 <= i < mods.len() && !done.contains(i as usize) ==> !#[trigger] ready(mods, done, i),
    ensures
        !is_dependency_order(mods, o),
{
    if is_dependency_order(mods, o) {
        lemma_distinct_covers(o, mods.len() as int, u);
    let p = choose|p: int| 0 <= p < o.len() && o[p] == u as usize;
        lemma_stuck_prefix(mods, done, o, p);
    }
}

proof fn lemma_stuck_prefix(mods: Seq<ModuleInfo>, done: Seq<usize>, o: Seq<usize>, p: int)
    requires
        0 <= p < o.len(),
        forall|i: int|
            0 <= i < mods.len() && !done.contains(i as usize) ==> !#[trigger] ready(mods, done, i),
        is_dependency_order(mods, o),
    ensures
        done.contains(o[p]),
    decreases p,
{
    let i = o[p] as int;
    if !done.contains(o[p]) {
        assert(!ready(mods, done, i));
        let j = choose|j: int|
            0 <= j < mods.len() && #[trigger] depends(mods, i, j) && !done.contains(j as usize);
        let r = choose|r: int| 0 <= r < p && #[trigger] o[r] as int == j;
        lemma_stuck_prefix(mods, done, o, r);
    }
}


/// `adj@[i]@[j]` tells whether member `i` refers to member `j`.
pub open spec fn is_dependency_matrix(mods: Seq<ModuleInfo>, adj: Seq<Vec<bool>>) -> bool {
    &&& adj.len() == mods.len()
    &&& forall|i: int| 0 <= i < adj.len() ==> (#[trigger] adj[i])@.len() == mods.len()
    &&& forall|i: int, j: int|
        0 <= i < mods.len() && 0 <= j < mods.len() ==> (#[trigger] adj[i]@[j] == depends(mods, i, j))
}

fn dependency_matrix(mods: &Vec<ModuleInfo>) -> (adj: Vec<Vec<bool>>)
    ensures
        is_dependency_matrix(mods@, adj@),
{
    let n = mods.len();
    let mut adj: Vec<Vec<bool>> = Vec::new();
    let mut i: usize = 0;
    while i < n
        invariant
            n == mods@.len(),
            0 <= i <= n,
            adj@.len() == i,
            forall|a: int| 0 <= a < i ==> (#[trigger] adj@[a])@.len() == n,
            forall|a: int, b: int|
                0 <= a < i && 0 <= b < n ==> (#[trigger] adj@[a]@[b] == depends(mods@, a, b)),
        decreases n - i,
    {
        let mut row: Vec<bool> = Vec::new();
        let mut j: usize = 0;
        while j < n
            invariant
                n == mods@.len(),
                i < n,
                0 <= j <= n,
                row@.len() == j,
                forall|b: int| 0 <= b < j ==> row@[b] == depends(mods@, i as int, b),
            decreases n - j,
        {
            row.push(refers_to(mods, i, j));
            j = j + 1;
        }
        adj.push(row);
        i = i + 1;
    }
    adj
}

/// The first pair of members, by position of the later one, that share an identity.
fn find_duplicate(mods: &Vec<ModuleInfo>) -> (r: Option<(usize, usize)>)
    ensures
        r is None <==> !has_duplicate(mods@),
        r matches Some((i, j)) ==> i < j < mods@.len() && mods@[i as int].id@ == mods@[j as int].id@,
{
    let n = mods.len();
    let mut j: usize = 0;
    while j < n
        invariant
            n == mods@.len(),
            0 <= j <= n,
            forall|a: int, b: int|
                0 <= a < b < j ==> #[trigger] mods@[a].id@ != #[trigger] mods@[b].id@,
        decreases n - j,
    {
        let mut i: usize = 0;
        while i < j
            invariant
                n == mods@.len(),
                0 <= i <= j < n,
                forall|a: int| 0 <= a < i ==> #[trigger] mods@[a].id@ != mods@[j as int].id@,
            decreases j - i,
        {
            if mods[i].id.same_as(&mods[j].id) {
                return Some((i, j));
            }
            i = i + 1;
        }
        j = j + 1;
    }
    None
}

fn all_deps_placed(adj: &Vec<Vec<bool>>, placed: &Vec<bool>, i: usize) -> (r: bool)
    requires
        i < adj@.len(),
        adj@[i as int]@.len() == placed@.len(),
    ensures
        r == forall|j: int| 0 <= j < placed@.len() && adj@[i as int]@[j] ==> placed@[j],
{
    let row = &adj[i];
    let mut j: usize = 0;
    while j < placed.len()
        invariant
            row == &adj@[i as int],
            row@.len() == placed@.len(),
            0 <= j <= placed@.len(),
            forall|b: int| 0 <= b < j && row@[b] ==> placed@[b],
        decreases placed@.len() - j,
    {
        if row[j] && !placed[j] {
            return false;
        }
        j = j + 1;
    }
    true
}


/// `path` starts at member `m`, each member on it refers to the next, and the
/// last refers back to `m`.
pub open spec fn is_cycle_from(mods: Seq<ModuleInfo>, path: Seq<int>, m: int) -> bool {
    &&& path.len() >= 1
    &&& path[0] == m
    &&& forall|k: int| 0 <= k < path.len() ==> 0 <= #[trigger] path[k] < mods.len()
    &&& forall|k: int| 0 <= k < path.len() - 1 ==> depends(mods, #[trigger] path[k], path[k + 1])
    &&& depends(mods, path[path.len() - 1], m)
}

/// Member `m` lies on a cycle of references.
pub open spec fn on_cycle(mods: Seq<ModuleInfo>, m: int) -> bool {
    exists|path: Seq<int>| is_cycle_from(mods, path, m)
}

/// Distinct indices below `n` are at most `n`.
proof fn lemma_distinct_len(o: Seq<usize>, n: int)
    requires
        0 <= n,
        forall|p: int| 0 <= p < o.len() ==> (#[trigger] o[p] as int) < n,
        forall|p: int, q: int| 0 <= p < q < o.len() ==> (#[trigger] o[p]) != (#[trigger] o[q]),
    ensures
        o.len() <= n,
{
    broadcast use vstd::set::group_set_axioms, vstd::seq_lib::seq_to_set_is_finite;

    let m = o.map_values(|x: usize| x as int);
    let r = vstd::set_lib::set_int_range(0, n);
    lemma_distinct_as_ints(o);
    m.unique_seq_to_set();
    vstd::set_lib::lemma_int_range(0, n);
    assert(m.to_set().subset_of(r));
    vstd::set_lib::lemma_len_subset(m.to_set(), r);
}

/// Member `i` refers to a member that `placed` does not mark.
pub open spec fn waits(adj: Seq<Vec<bool>>, placed: Seq<bool>, i: int) -> bool {
    exists|j: int| 0 <= j < placed.len() && adj[i]@[j] && !placed[j]
}

/// The first member that `i` refers to and that is not yet placed.
fn first_waiting_dep(adj: &Vec<Vec<bool>>, placed: &Vec<bool>, i: usize) -> (r: usize)
    requires
        i < adj@.len(),
        adj@[i as int]@.len() == placed@.len(),
        waits(adj@, placed@, i as int),
    ensures
        r < placed@.len(),
        adj@[i as int]@[r as int],
        !placed@[r as int],
{
    let row = &adj[i];
    let mut j: usize = 0;
    while j < placed.len()
        invariant
            row == &adj@[i as int],
            row@.len() == placed@.len(),
            0 <= j <= placed@.len(),
            forall|b: int| 0 <= b < j ==> !row@[b] || placed@[b],
            waits(adj@, placed@, i as int),
        decreases placed@.len() - j,
    {
        if row[j] && !placed[j] {
            return j;
        }
        j = j + 1;
    }
    proof {
        let b = choose|b: int| 0 <= b < placed@.len() && adj@[i as int]@[b] && !placed@[b];
        assert(!row@[b] || placed@[b]);
    }
    0
}

/// Starting from an unplaced member, follows references to unplaced members
/// until one repeats; the repeated member lies on a cycle.
#[verifier::rlimit(50)]
fn member_on_cycle(mods: &Vec<ModuleInfo>, adj: &Vec<Vec<bool>>, placed: &Vec<bool>, u: usize) -> (r:
    usize)
    requires
        is_dependency_matrix(mods@, adj@),
        placed@.len() == mods@.len(),
        u < mods@.len(),
        !placed@[u as int],
        forall|i: int| 0 <= i < mods@.len() && !placed@[i] ==> #[trigger] waits(adj@, placed@, i),
    ensures
        r < mods@.len(),
        on_cycle(mods@, r as int),
{
    let n = mods.len();
    let mut pos: Vec<usize> = Vec::new();
    let mut k: usize = 0;
    while k < n
        invariant
            0 <= k <= n,
            pos@.len() == k,
            forall|j: int| 0 <= j < k ==> pos@[j] == n,
        decreases n - k,
    {
        pos.push(n);
        k = k + 1;
    }
    let mut walk: Vec<usize> = Vec::new();
    let mut cur: usize = u;
    while pos[cur] == n
        invariant
            n == mods@.len(),
            adj@.len() == n,
            forall|i: int| 0 <= i < n ==> (#[trigger] adj@[i])@.len() == n,
            placed@.len() == n,
            forall|i: int| 0 <= i < n && !placed@[i] ==> #[trigger] waits(adj@, placed@, i),
            pos@.len() == n,
            cur < n,
            !placed@[cur as int],
            walk@.len() <= n,
            forall|p: int| 0 <= p < walk@.len() ==> (#[trigger] walk@[p] as int) < n,
            forall|p: int| 0 <= p < walk@.len() ==> pos@[#[trigger] walk@[p] as int] == p,
            forall|x: int|
                0 <= x < n && pos@[x] != n ==> pos@[x] < walk@.len() && walk@[pos@[x] as int] == x,
            forall|p: int|
                0 <= p < walk@.len() - 1 ==> adj@[#[trigger] walk@[p] as int]@[walk@[p + 1] as int],
            walk@.len() > 0 ==> adj@[walk@[walk@.len() - 1] as int]@[cur as int],
        decreases n - walk@.len(),
    {
        let ghost prev = walk@;
        proof {
            assert(!walk@.contains(cur)) by {
                if walk@.contains(cur) {
                    let p = choose|p: int| 0 <= p < walk@.len() && walk@[p] == cur;
                    assert(pos@[walk@[p] as int] == p);
                }
            }
        }
        pos.set(cur, walk.len());
        walk.push(cur);
        proof {
            assert(walk@ == prev.push(cur));
            assert forall|p: int, q: int|
                0 <= p < q < walk@.len() implies (#[trigger] walk@[p]) != (#[trigger] walk@[q]) by {
                assert(pos@[walk@[p] as int] == p);
                assert(pos@[walk@[q] as int] == q);
            }
            lemma_distinct_len(walk@, n as int);
        }
        cur = first_waiting_dep(adj, placed, cur);
    }
    let start = pos[cur];
    proof {
        let path = walk@.subrange(start as int, walk@.len() as int).map_values(|x: usize| x as int);
        assert(is_cycle_from(mods@, path, cur as int)) by {
            assert forall|k2: int| 0 <= k2 < path.len() - 1 implies depends(
                mods@,
                #[trigger] path[k2],
                path[k2 + 1],
            ) by {
                assert(path[k2] == walk@[start + k2] as int);
                assert(path[k2 + 1] == walk@[start + k2 + 1] as int);
                assert(adj@[walk@[start + k2] as int]@[walk@[start + k2 + 1] as int]);
            }
            assert(path[path.len() - 1] == walk@[walk@.len() - 1] as int);
            assert(adj@[walk@[walk@.len() - 1] as int]@[cur as int]);
        }
    }
    cur
}

/// Why a bundle cannot be ordered.
pub enum BundleError {
    /// The members at these two positions share one identity.
    DuplicateModuleInBundle { first: usize, second: usize },
    /// The bundle's references form a cycle; the member at `module` lies on one.
    CyclicModuleDependency { module: usize },
}

/// The first position in `placed` that holds `false`, or its length.
fn first_unplaced(placed: &Vec<bool>) -> (r: usize)
    ensures
        r <= placed@.len(),
        r < placed@.len() ==> !placed@[r as int],
        r == placed@.len() ==> forall|j: int| 0 <= j < placed@.len() ==> placed@[j],
{
    let mut i: usize = 0;
    while i < placed.len()
        invariant
            0 <= i <= placed@.len(),
            forall|j: int| 0 <= j < i ==> placed@[j],
        decreases placed@.len() - i,
    {
        if !placed[i] {
            return i;
        }
        i = i + 1;
    }
    i
}

/// Orders a bundle so that every member comes after the members it refers
/// to. Among members that no reference orders, input order is kept: each
/// position takes the first member, in input order, whose references are all
/// placed. References to modules outside the bundle are ignored.
pub fn sort_order(mods: &Vec<ModuleInfo>) -> (r: Result<Vec<usize>, BundleError>)
    ensures
        r is Ok <==> !has_duplicate(mods@) && exists|o: Seq<usize>| is_dependency_order(mods@, o),
        r matches Ok(o) ==> is_dependency_order(mods@, o@) && is_stable(mods@, o@),
        r matches Err(BundleError::DuplicateModuleInBundle { first, second }) ==> first < second
            < mods@.len() && mods@[first as int].id@ == mods@[second as int].id@,
        (r matches Err(BundleError::DuplicateModuleInBundle { .. })) <==> has_duplicate(mods@),
        r matches Err(BundleError::CyclicModuleDependency { module }) ==> module < mods@.len()
            && !has_duplicate(mods@) && on_cycle(mods@, module as int),
{
    let n = mods.len();
    if let Some((first, second)) = find_duplicate(mods) {
        return Err(BundleError::DuplicateModuleInBundle { first, second });
    }
    let adj = dependency_matrix(mods);
    let mut placed: Vec<bool> = Vec::new();
    let mut k: usize = 0;
    while k < n
        invariant
            0 <= k <= n,
            placed@.len() == k,
            forall|j: int| 0 <= j < k ==> !placed@[j],
        decreases n - k,
    {
        placed.push(false);
        k = k + 1;
    }
    let mut order: Vec<usize> = Vec::new();
    while order.len() < n
        invariant
            n == mods@.len(),
            !has_duplicate(mods@),
            is_dependency_matrix(mods@, adj@),
            placed@.len() == n,
            forall|j: int| 0 <= j < n ==> placed@[j] == order@.contains(j as usize),
            order@.len() <= n,
            forall|p: int| 0 <= p < order@.len() ==> (#[trigger] order@[p] as int) < n,
            forall|p: int, q: int|
                0 <= p < q < order@.len() ==> (#[trigger] order@[p]) != (#[trigger] order@[q]),
            deps_come_first(mods@, order@),
            is_stable(mods@, order@),
        decreases n - order@.len(),
    {
        let mut i: usize = 0;
        let mut found: usize = n;
        while i < n && found == n
            invariant
                n == mods@.len(),
                is_dependency_matrix(mods@, adj@),
                placed@.len() == n,
                forall|j: int| 0 <= j < n ==> placed@[j] == order@.contains(j as usize),
                0 <= i <= n,
                found <= n,
                found == n ==> forall|a: int|
                    0 <= a < i && !placed@[a] ==> !#[trigger] ready(mods@, order@, a),
                found < n ==> !placed@[found as int] && ready(mods@, order@, found as int)
                    && forall|a: int|
                    0 <= a < found && !placed@[a] ==> !#[trigger] ready(mods@, order@, a),
            decreases n - i,
        {
            let ok = all_deps_placed(&adj, &placed, i);
            proof {
                assert(ok == ready(mods@, order@, i as int)) by {
                    if ok {
                        assert forall|j: int|
                            0 <= j < mods@.len() && #[trigger] depends(
                                mods@,
                                i as int,
                                j,
                            ) implies order@.contains(j as usize) by {
                            assert(adj@[i as int]@[j]);
                            assert(placed@[j]);
                        }
                    } else {
                        let j = choose|j: int|
                            0 <= j < placed@.len() && adj@[i as int]@[j] && !placed@[j];
                        assert(depends(mods@, i as int, j));
                    }
                }
            }
            if !placed[i] && ok {
                found = i;
            }
            i = i + 1;
        }
        if found == n {
            let u = first_unplaced(&placed);
            proof {
                if u == n {
                    assert forall|j: int| 0 <= j < n implies #[trigger] order@.contains(
                        j as usize,
                    ) by {
                        assert(placed@[j]);
                    }
                    lemma_covering_len(order@, n as int);
                }
                assert forall|o: Seq<usize>| !is_dependency_order(mods@, o) by {
                    lemma_stuck_has_no_order(mods@, order@, u as int, o);
                }
                assert forall|i: int| 0 <= i < n && !placed@[i] implies #[trigger] waits(
                    adj@,
                    placed@,
                    i,
                ) by {
                    assert(!ready(mods@, order@, i));
                    let j = choose|j: int|
                        0 <= j < n && #[trigger] depends(mods@, i, j) && !order@.contains(j as usize);
                    assert(!placed@[j]);
                    assert(adj@[i]@[j]);
                }
            }
            let module = member_on_cycle(mods, &adj, &placed, u);
            return Err(BundleError::CyclicModuleDependency { module });
        }
        let ghost prev = order@;
        let ghost old_placed = placed@;
        placed.set(found, true);
        order.push(found);
        proof {
            assert(order@ == prev.push(found));
            assert forall|j: int| 0 <= j < n implies placed@[j] == order@.contains(j as usize) by {
                assert(old_placed[j] == prev.contains(j as usize));
                if j == found {
                    assert(order@[prev.len() as int] == found);
                } else {
                    if prev.contains(j as usize) {
                        let r = choose|r: int| 0 <= r < prev.len() && prev[r] == j as usize;
                        assert(order@[r] == j as usize);
                    }
                    if order@.contains(j as usize) {
                        let r = choose|r: int| 0 <= r < order@.len() && order@[r] == j as usize;
                        assert(r < prev.len());
                        assert(prev[r] == j as usize);
                    }
                }
            }
            assert forall|p: int, q: int|
                0 <= p < q < order@.len() implies (#[trigger] order@[p]) != (#[trigger] order@[q]) by {
                if q == prev.len() {
                    assert(prev.contains(prev[p]));
                    assert(old_placed[prev[p] as int]);
                    assert(!old_placed[found as int]);
                }
            }
            assert forall|p: int, j: int|
                0 <= p < order@.len() && 0 <= j < mods@.len() && #[trigger] depends(
                    mods@,
                    order@[p] as int,
                    j,
                ) implies exists|r: int| 0 <= r < p && #[trigger] order@[r] as int == j by {
                if p < prev.len() {
                    assert(order@[p] == prev[p]);
                    let r = choose|r: int| 0 <= r < p && #[trigger] prev[r] as int == j;
                    assert(order@[r] == prev[r]);
                } else {
                    assert(ready(mods@, prev, found as int));
                    assert(prev.contains(j as usize));
                    let r = choose|r: int| 0 <= r < prev.len() && prev[r] == j as usize;
                    assert(order@[r] == prev[r]);
                }
            }
            assert forall|k2: int, a: int|
                0 <= k2 < order@.len() && 0 <= a < order@[k2] && !order@.take(k2).contains(
                    a as usize,
                ) implies !#[trigger] ready(mods@, order@.take(k2), a) by {
                if k2 < prev.len() {
                    assert(order@.take(k2) =~= prev.take(k2));
                    assert(order@[k2] == prev[k2]);
                } else {
                    assert(order@.take(k2) =~= prev);
                    assert(old_placed[a] == prev.contains(a as usize));
                }
            }
        }
    }
    proof {
        assert(is_dependency_order(mods@, order@));
    }
    Ok(order)
}


/// In a dependency order, whenever the member at position `p` refers to the
/// member at position `q`, `q` comes before `p`.
pub proof fn law_dependency_precedes_dependent(mods: Seq<ModuleInfo>, o: Seq<usize>, p: int, q: int)
    requires
        is_dependency_order(mods, o),
        0 <= p < o.len(),
        0 <= q < o.len(),
        depends(mods, o[p] as int, o[q] as int),
    ensures
        q < p,
{
    let r = choose|r: int| 0 <= r < p && #[trigger] o[r] as int == o[q] as int;
    if r != q {
        if r < q {
            assert(o[r] != o[q]);
        } else {
            assert(o[q] != o[r]);
        }
    }
}

/// With no references among its members, the stable dependency order of a
/// bundle is its input order.
pub proof fn law_unconstrained_keeps_input_order(mods: Seq<ModuleInfo>, o: Seq<usize>)
    requires
        forall|i: int, j: int| 0 <= i < mods.len() && 0 <= j < mods.len() ==> !depends(mods, i, j),
        is_dependency_order(mods, o),
        is_stable(mods, o),
    ensures
        forall|k: int| 0 <= k < o.len() ==> o[k] == k,
{
    lemma_identity_prefix(mods, o, o.len() as int);
}

proof fn lemma_identity_prefix(mods: Seq<ModuleInfo>, o: Seq<usize>, m: int)
    requires
        forall|i: int, j: int| 0 <= i < mods.len() && 0 <= j < mods.len() ==> !depends(mods, i, j),
        is_dependency_order(mods, o),
        is_stable(mods, o),
        0 <= m <= o.len(),
    ensures
        forall|k: int| 0 <= k < m ==> o[k] == k,
    decreases m,
{
    if m > 0 {
        let k = m - 1;
        lemma_identity_prefix(mods, o, k);
        assert(ready(mods, o.take(k), k));
        if (o[k] as int) < k {
            assert(o[o[k] as int] == o[k]);
            if o[k] as int != k {
                assert(o[o[k] as int] != o[k]);
            }
        } else if (o[k] as int) > k {
            if o.take(k).contains(k as usize) {
                let r = choose|r: int| 0 <= r < k && o.take(k)[r] == k as usize;
                assert(o[r] == r);
            }
        }
    }
}

/// Two members that refer to each other cannot be ordered.
pub proof fn law_mutual_reference_has_no_order(mods: Seq<ModuleInfo>, a: int, b: int, o: Seq<usize>)
    requires
        mods.len() <= usize::MAX,
        0 <= a < mods.len(),
        0 <= b < mods.len(),
        depends(mods, a, b),
        depends(mods, b, a),
    ensures
        !is_dependency_order(mods, o),
{
    if is_dependency_order(mods, o) {
        lemma_distinct_covers(o, mods.len() as int, a);
        lemma_distinct_covers(o, mods.len() as int, b);
        let pa = choose|p: int| 0 <= p < o.len() && o[p] == a as usize;
        let pb = choose|p: int| 0 <= p < o.len() && o[p] == b as usize;
        assert(o[pa] as int == a && o[pb] as int == b);
        law_dependency_precedes_dependent(mods, o, pa, pb);
        law_dependency_precedes_dependent(mods, o, pb, pa);
    }
}


/// Puts a bundle's blobs in dependency order. `mods[i]` is what decoding
/// `codes[i]` yielded; the blobs come back as they were given, reordered as
/// `sort_order` orders their modules.
pub fn sort_module_bundle(codes: &Vec<Vec<u8>>, mods: &Vec<ModuleInfo>) -> (r: Result<
    Vec<Vec<u8>>,
    BundleError,
>)
    requires
        codes@.len() == mods@.len(),
    ensures
        r is Ok <==> !has_duplicate(mods@) && exists|o: Seq<usize>| is_dependency_order(mods@, o),
        r matches Ok(out) ==> exists|o: Seq<usize>|
            {
                &&& is_dependency_order(mods@, o)
                &&& is_stable(mods@, o)
                &&& out@.len() == o.len()
                &&& forall|k: int| 0 <= k < o.len() ==> (#[trigger] out@[k])@ == codes@[o[k] as int]@
            },
        r matches Err(BundleError::DuplicateModuleInBundle { first, second }) ==> first < second
            < mods@.len() && mods@[first as int].id@ == mods@[second as int].id@,
        (r matches Err(BundleError::DuplicateModuleInBundle { .. })) <==> has_duplicate(mods@),
        r matches Err(BundleError::CyclicModuleDependency { module }) ==> module < mods@.len()
            && !has_duplicate(mods@) && on_cycle(mods@, module as int),
{
    let order = match sort_order(mods) {
        Ok(order) => order,
        Err(e) => return Err(e),
    };
    let mut out: Vec<Vec<u8>> = Vec::new();
    let mut k: usize = 0;
    while k < order.len()
        invariant
            is_dependency_order(mods@, order@),
            codes@.len() == mods@.len(),
            0 <= k <= order@.len(),
            out@.len() == k,
            forall|p: int| 0 <= p < k ==> (#[trigger] out@[p])@ == codes@[order@[p] as int]@,
        decreases order@.len() - k,
    {
        let code = codes[order[k]].clone();
        proof {
            assert(code@ =~= codes@[order@[k as int] as int]@);
        }
        out.push(code);
        k = k + 1;
    }
    Ok(out)
}

} // verus!

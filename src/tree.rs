use vstd::prelude::*;
use crate::path::views;

verus! {

/// Width of the name field of a directory entry, in bytes.
pub const NAME_WIDTH: usize = 32;

/// Number of entries one directory can hold.
pub const MAX_ENTRIES: usize = 128;

/// A directory: its entries in insertion order.
pub struct Directory {
    pub entries: Vec<DirectoryEntry>,
}

/// A name and what it refers to.
pub struct DirectoryEntry {
    pub name: Vec<u8>,
    pub node: Node,
}

/// What a directory entry refers to: a file record, by handle, or a nested
/// directory.
pub enum Node {
    File(usize),
    Dir(Directory),
}

/// The names of `es`, in order.
pub open spec fn names(es: Seq<DirectoryEntry>) -> Seq<Seq<u8>> {
    es.map_values(|e: DirectoryEntry| e.name@)
}

/// Index of the last of `ns` equal to `x`, or -1 when there is none.
pub open spec fn find(ns: Seq<Seq<u8>>, x: Seq<u8>) -> int
    decreases ns.len(),
{
    if ns.len() == 0 {
        -1
    } else if ns.last() == x {
        ns.len() - 1
    } else {
        find(ns.drop_last(), x)
    }
}

/// No two of `ns` are equal.
pub open spec fn distinct(ns: Seq<Seq<u8>>) -> bool {
    forall|a: int, b: int| 0 <= a < b < ns.len() ==> ns[a] != ns[b]
}

/// What a node is, without its contents: `Some(h)` for file `h`, `None` for
/// a directory.
pub open spec fn kind(n: Node) -> Option<usize> {
    match n {
        Node::File(h) => Some(h),
        Node::Dir(_) => None,
    }
}

/// What `segs` names below `d`: `None` for nothing, `Some(None)` for a
/// directory, `Some(Some(h))` for file `h`.
pub open spec fn at(d: Directory, segs: Seq<Seq<u8>>) -> Option<Option<usize>>
    decreases segs.len(),
{
    if segs.len() == 0 {
        Some(None)
    } else {
        let i = find(names(d.entries@), segs[0]);
        if i < 0 {
            None
        } else {
            match d.entries@[i].node {
                Node::File(h) => if segs.len() == 1 {
                    Some(Some(h))
                } else {
                    None
                },
                Node::Dir(sub) => at(sub, segs.drop_first()),
            }
        }
    }
}

/// The handle of the file that `segs` names below `d`, if it names one.
pub open spec fn handle_at(d: Directory, segs: Seq<Seq<u8>>) -> Option<usize> {
    match at(d, segs) {
        Some(Some(h)) => Some(h),
        _ => None,
    }
}

/// `segs` names a directory below `d` exactly when it has a listing.
pub proof fn lemma_dir_listed(d: Directory, segs: Seq<Seq<u8>>)
    ensures
        (at(d, segs) == Some(None::<usize>)) == (listing(d, segs) is Some),
    decreases segs.len(),
{
    if segs.len() > 0 {
        let i = find(names(d.entries@), segs[0]);
        if i >= 0 {
            match d.entries@[i].node {
                Node::Dir(sub) => lemma_dir_listed(sub, segs.drop_first()),
                Node::File(_) => {},
            }
        }
    }
}

/// A name missing from the listing of `rest` names nothing below it.
pub proof fn lemma_absent(d: Directory, rest: Seq<Seq<u8>>, x: Seq<u8>)
    requires
        listing(d, rest) is Some,
        !listing(d, rest)->Some_0.contains(x),
    ensures
        at(d, rest.push(x)) is None,
    decreases rest.len(),
{
    let q = rest.push(x);
    if rest.len() == 0 {
        lemma_find(names(d.entries@), x);
        assert(q[0] == x);
    } else {
        assert(q[0] == rest[0]);
        assert(q.drop_first() =~= rest.drop_first().push(x));
        let i = find(names(d.entries@), rest[0]);
        match d.entries@[i].node {
            Node::Dir(sub) => lemma_absent(sub, rest.drop_first(), x),
            Node::File(_) => {},
        }
    }
}

/// Removing one name keeps the others distinct.
pub proof fn lemma_distinct_remove(ns: Seq<Seq<u8>>, i: int)
    requires
        distinct(ns),
        0 <= i < ns.len(),
    ensures
        distinct(ns.remove(i)),
{
    let r = ns.remove(i);
    assert forall|a: int, b: int| 0 <= a < b < r.len() implies r[a] != r[b] by {
        let a2 = if a < i { a } else { a + 1 };
        let b2 = if b < i { b } else { b + 1 };
        assert(r[a] == ns[a2]);
        assert(r[b] == ns[b2]);
    }
}

/// Adding a name that is not there keeps the names distinct.
pub proof fn lemma_distinct_push(ns: Seq<Seq<u8>>, x: Seq<u8>)
    requires
        distinct(ns),
        !ns.contains(x),
    ensures
        distinct(ns.push(x)),
{
    let r = ns.push(x);
    assert forall|a: int, b: int| 0 <= a < b < r.len() implies r[a] != r[b] by {
        if b == ns.len() {
            assert(r[a] == ns[a]);
        }
    }
}

/// Whether `x` is one of `ns`.
pub fn contains_name(ns: &Vec<Vec<u8>>, x: &Vec<u8>) -> (r: bool)
    ensures
        r == views(ns@).contains(x@),
{
    let mut i: usize = 0;
    while i < ns.len()
        invariant
            i <= ns@.len(),
            forall|j: int| 0 <= j < i ==> ns@[j]@ != x@,
        decreases ns@.len() - i,
    {
        if bytes_eq(&ns[i], x) {
            assert(views(ns@)[i as int] == x@);
            return true;
        }
        i = i + 1;
    }
    assert(!views(ns@).contains(x@)) by {
        if views(ns@).contains(x@) {
            let t = choose|t: int| 0 <= t < views(ns@).len() && views(ns@)[t] == x@;
            assert(ns@[t]@ == x@);
        }
    }
    false
}

/// The names in the directory that `segs` names below `d`, if it is one.
pub open spec fn listing(d: Directory, segs: Seq<Seq<u8>>) -> Option<Seq<Seq<u8>>>
    decreases segs.len(),
{
    if segs.len() == 0 {
        Some(names(d.entries@))
    } else {
        let i = find(names(d.entries@), segs[0]);
        if i < 0 {
            None
        } else {
            match d.entries@[i].node {
                Node::File(_) => None,
                Node::Dir(sub) => listing(sub, segs.drop_first()),
            }
        }
    }
}

pub proof fn lemma_find(ns: Seq<Seq<u8>>, x: Seq<u8>)
    ensures
        -1 <= find(ns, x) < ns.len(),
        find(ns, x) >= 0 ==> ns[find(ns, x)] == x,
        find(ns, x) < 0 <==> !ns.contains(x),
        distinct(ns) ==> forall|i: int| 0 <= i < ns.len() && ns[i] == x ==> i == find(ns, x),
    decreases ns.len(),
{
    if ns.len() > 0 {
        let p = ns.drop_last();
        lemma_find(p, x);
        if ns.last() == x {
            assert(ns.contains(x));
        } else {
            if p.contains(x) {
                let t = choose|t: int| 0 <= t < p.len() && p[t] == x;
                assert(ns[t] == x);
            }
            if ns.contains(x) {
                let t = choose|t: int| 0 <= t < ns.len() && ns[t] == x;
                assert(p[t] == x);
            }
        }
        if distinct(ns) {
            assert(distinct(p));
        }
    }
}

pub proof fn lemma_find_push(ns: Seq<Seq<u8>>, y: Seq<u8>, x: Seq<u8>)
    ensures
        find(ns.push(y), x) == if x == y {
            ns.len() as int
        } else {
            find(ns, x)
        },
{
    assert(ns.push(y).drop_last() =~= ns);
}

pub proof fn lemma_find_remove(ns: Seq<Seq<u8>>, i: int, x: Seq<u8>)
    requires
        0 <= i < ns.len(),
        x != ns[i],
    ensures
        find(ns.remove(i), x) == if find(ns, x) < i {
            find(ns, x)
        } else {
            find(ns, x) - 1
        },
    decreases ns.len(),
{
    let r = ns.remove(i);
    lemma_find(ns.drop_last(), x);
    if i == ns.len() - 1 {
        assert(r =~= ns.drop_last());
    } else {
        assert(r.drop_last() =~= ns.drop_last().remove(i));
        assert(r.last() == ns.last());
        if ns.last() != x {
            lemma_find_remove(ns.drop_last(), i, x);
            lemma_find(ns.drop_last(), x);
        }
    }
}

pub proof fn lemma_names_update(es: Seq<DirectoryEntry>, i: int, e: DirectoryEntry)
    requires
        0 <= i < es.len(),
        e.name@ == es[i].name@,
    ensures
        names(es.update(i, e)) == names(es),
{
    assert(names(es.update(i, e)) =~= names(es));
}

/// Whether two byte vectors are equal.
pub fn bytes_eq(a: &Vec<u8>, b: &Vec<u8>) -> (r: bool)
    ensures
        r == (a@ == b@),
{
    if a.len() != b.len() {
        return false;
    }
    let mut i: usize = 0;
    while i < a.len()
        invariant
            i <= a@.len(),
            a@.len() == b@.len(),
            forall|j: int| 0 <= j < i ==> a@[j] == b@[j],
        decreases a@.len() - i,
    {
        if a[i] != b[i] {
            return false;
        }
        i = i + 1;
    }
    assert(a@ =~= b@);
    true
}

/// Index of the last entry of `es` named `name`.
pub fn find_entry(es: &Vec<DirectoryEntry>, name: &Vec<u8>) -> (r: Option<usize>)
    ensures
        r is None <==> find(names(es@), name@) < 0,
        r is Some ==> r->Some_0 == find(names(es@), name@),
{
    let mut i: usize = es.len();
    assert(es@.take(i as int) =~= es@);
    while i > 0
        invariant
            i <= es@.len(),
            find(names(es@), name@) == find(names(es@.take(i as int)), name@),
        decreases i,
    {
        assert(names(es@.take(i as int)).drop_last() =~= names(es@.take(i - 1)));
        assert(names(es@.take(i as int)).last() == es@[i - 1].name@);
        if bytes_eq(&es[i - 1].name, name) {
            return Some(i - 1);
        }
        i = i - 1;
    }
    None
}

impl Directory {
    /// A directory with no entries.
    pub fn new() -> (r: Self)
        ensures
            r.entries@.len() == 0,
    {
        Directory { entries: Vec::new() }
    }
}

/// What the segments of `segs` from `depth` on name below `d`.
pub fn lookup(d: &Directory, segs: &Vec<Vec<u8>>, depth: usize) -> (r: Option<Option<usize>>)
    requires
        depth <= segs@.len(),
    ensures
        r == at(*d, views(segs@).skip(depth as int)),
    decreases segs@.len() - depth,
{
    let ghost q = views(segs@).skip(depth as int);
    if depth == segs.len() {
        return Some(None);
    }
    assert(q[0] == segs@[depth as int]@);
    proof {
        lemma_find(names(d.entries@), segs@[depth as int]@);
    }
    match find_entry(&d.entries, &segs[depth]) {
        None => None,
        Some(i) => match &d.entries[i].node {
            Node::File(h) => {
                if depth + 1 == segs.len() {
                    Some(Some(*h))
                } else {
                    None
                }
            },
            Node::Dir(sub) => {
                assert(q.drop_first() =~= views(segs@).skip(depth + 1));
                lookup(sub, segs, depth + 1)
            },
        },
    }
}

/// A copy of the names of `es`.
fn entry_names(es: &Vec<DirectoryEntry>) -> (r: Vec<Vec<u8>>)
    ensures
        views(r@) == names(es@),
{
    let mut r: Vec<Vec<u8>> = Vec::new();
    let mut i: usize = 0;
    while i < es.len()
        invariant
            i <= es@.len(),
            views(r@) == names(es@).take(i as int),
        decreases es@.len() - i,
    {
        let ghost r0 = r@;
        r.push(crate::store::copy_bytes(&es[i].name));
        assert(views(r@) =~= views(r0).push(es@[i as int].name@));
        i = i + 1;
        assert(views(r@) =~= names(es@).take(i as int));
    }
    assert(names(es@).take(i as int) =~= names(es@));
    r
}

/// The names in the directory that the segments of `segs` from `depth` on
/// name below `d`, if it is one.
pub fn list_at(d: &Directory, segs: &Vec<Vec<u8>>, depth: usize) -> (r: Option<Vec<Vec<u8>>>)
    requires
        depth <= segs@.len(),
    ensures
        r is Some <==> listing(*d, views(segs@).skip(depth as int)) is Some,
        r is Some ==> views(r->Some_0@) == listing(*d, views(segs@).skip(depth as int))->Some_0,
    decreases segs@.len() - depth,
{
    let ghost q = views(segs@).skip(depth as int);
    if depth == segs.len() {
        return Some(entry_names(&d.entries));
    }
    assert(q[0] == segs@[depth as int]@);
    proof {
        lemma_find(names(d.entries@), segs@[depth as int]@);
    }
    match find_entry(&d.entries, &segs[depth]) {
        None => None,
        Some(i) => match &d.entries[i].node {
            Node::File(_) => None,
            Node::Dir(sub) => {
                assert(q.drop_first() =~= views(segs@).skip(depth + 1));
                list_at(sub, segs, depth + 1)
            },
        },
    }
}

/// A file beneath `rest.push(x)` means a directory at `rest`.
pub proof fn lemma_parent_listed(d: Directory, rest: Seq<Seq<u8>>, x: Seq<u8>)
    requires
        at(d, rest.push(x)) is Some,
    ensures
        listing(d, rest) is Some,
    decreases rest.len(),
{
    if rest.len() > 0 {
        let q = rest.push(x);
        assert(q[0] == rest[0]);
        assert(q.drop_first() =~= rest.drop_first().push(x));
        let i = find(names(d.entries@), rest[0]);
        if i >= 0 {
            match d.entries@[i].node {
                Node::Dir(sub) => lemma_parent_listed(sub, rest.drop_first(), x),
                Node::File(_) => {},
            }
        }
    }
}

/// `q` is `rest.push(x)` exactly when they agree on the first segment and
/// the tails do.
proof fn lemma_push_tail(q: Seq<Seq<u8>>, rest: Seq<Seq<u8>>, x: Seq<u8>)
    requires
        q.len() > 0,
        rest.len() > 0,
        q[0] == rest[0],
    ensures
        (q == rest.push(x)) == (q.drop_first() == rest.drop_first().push(x)),
        (q == rest) == (q.drop_first() == rest.drop_first()),
{
    if q.drop_first() == rest.drop_first().push(x) {
        assert forall|k: int| 0 <= k < q.len() implies q[k] == rest.push(x)[k] by {
            if k > 0 {
                assert(q[k] == q.drop_first()[k - 1]);
                assert(rest.push(x)[k] == rest.drop_first().push(x)[k - 1]);
            }
        }
        assert(q =~= rest.push(x));
    }
    if q == rest.push(x) {
        assert(q.drop_first() =~= rest.drop_first().push(x));
    }
    if q.drop_first() == rest.drop_first() {
        assert forall|k: int| 0 <= k < q.len() implies q[k] == rest[k] by {
            if k > 0 {
                assert(q[k] == q.drop_first()[k - 1]);
                assert(rest[k] == rest.drop_first()[k - 1]);
            }
        }
        assert(q =~= rest);
    }
}

/// Adding entry `e` to `d0` gives `d1`, as seen from every path.
proof fn lemma_insert_here(d0: Directory, d1: Directory, e: DirectoryEntry, q: Seq<Seq<u8>>)
    requires
        d1.entries@ == d0.entries@.push(e),
        !names(d0.entries@).contains(e.name@),
        match e.node {
            Node::Dir(sub) => sub.entries@.len() == 0,
            Node::File(_) => true,
        },
    ensures
        at(d1, q) == if q == Seq::<Seq<u8>>::empty().push(e.name@) {
            Some(kind(e.node))
        } else {
            at(d0, q)
        },
        listing(d1, q) == if q == Seq::<Seq<u8>>::empty() {
            Some(names(d0.entries@).push(e.name@))
        } else if q == Seq::<Seq<u8>>::empty().push(e.name@) && e.node is Dir {
            Some(Seq::<Seq<u8>>::empty())
        } else {
            listing(d0, q)
        },
{
    let ns = names(d0.entries@);
    let name = e.name@;
    let target = Seq::<Seq<u8>>::empty().push(name);
    assert(names(d1.entries@) =~= ns.push(name));
    lemma_find(ns, name);
    if q.len() == 0 {
        assert(q != target);
        assert(q =~= Seq::<Seq<u8>>::empty());
    } else {
        assert(q != Seq::<Seq<u8>>::empty());
        lemma_find_push(ns, name, q[0]);
        lemma_find(ns, q[0]);
        if q[0] == name {
            assert(find(names(d1.entries@), q[0]) == ns.len());
            assert(d1.entries@[ns.len() as int] == e);
            assert(at(d0, q) is None);
            assert(listing(d0, q) is None);
            if q.len() == 1 {
                assert(q =~= target);
                match e.node {
                    Node::Dir(sub) => {
                        assert(q.drop_first() =~= Seq::<Seq<u8>>::empty());
                        assert(at(sub, q.drop_first()) == Some(None::<usize>));
                        assert(names(sub.entries@) =~= Seq::<Seq<u8>>::empty());
                        assert(listing(sub, q.drop_first()) == Some(Seq::<Seq<u8>>::empty()));
                    },
                    Node::File(_) => {},
                }
            } else {
                assert(q.len() != target.len());
                match e.node {
                    Node::Dir(sub) => {
                        assert(names(sub.entries@) =~= Seq::<Seq<u8>>::empty());
                        assert(at(sub, q.drop_first()) is None);
                        assert(listing(sub, q.drop_first()) is None);
                    },
                    Node::File(_) => {},
                }
            }
        } else {
            assert(q[0] != target[0]);
            let j = find(ns, q[0]);
            if j >= 0 {
                assert(d1.entries@[j] == d0.entries@[j]);
            }
        }
    }
}

/// Adds `entry` to the directory that the segments of `segs` from `depth`
/// on name below `d`. The caller has checked that the directory exists and
/// holds no entry of that name.
pub fn insert_at(d: &mut Directory, segs: &Vec<Vec<u8>>, depth: usize, entry: DirectoryEntry)
    requires
        depth <= segs@.len(),
        listing(*old(d), views(segs@).skip(depth as int)) is Some,
        !listing(*old(d), views(segs@).skip(depth as int))->Some_0.contains(entry.name@),
        match entry.node {
            Node::Dir(sub) => sub.entries@.len() == 0,
            Node::File(_) => true,
        },
    ensures
        forall|q: Seq<Seq<u8>>|
            #[trigger] at(*final(d), q) == if q == views(segs@).skip(depth as int).push(entry.name@) {
                Some(kind(entry.node))
            } else {
                at(*old(d), q)
            },
        forall|q: Seq<Seq<u8>>|
            #[trigger] listing(*final(d), q) == if q == views(segs@).skip(depth as int) {
                Some(listing(*old(d), q)->Some_0.push(entry.name@))
            } else if q == views(segs@).skip(depth as int).push(entry.name@) && entry.node is Dir {
                Some(Seq::<Seq<u8>>::empty())
            } else {
                listing(*old(d), q)
            },
    decreases segs@.len() - depth,
{
    let ghost rest = views(segs@).skip(depth as int);
    let ghost name = entry.name@;
    let ghost ek = kind(entry.node);
    let ghost enode = entry.node;
    let ghost old_d = *d;
    if depth == segs.len() {
        let ghost es = d.entries@;
        let ghost e0 = entry;
        d.entries.push(entry);
        proof {
            assert(d.entries@ == es.push(e0));
            assert(d.entries@[es.len() as int] == e0);
            assert(rest =~= Seq::<Seq<u8>>::empty());
            assert(names(d.entries@) =~= names(es).push(name));
            lemma_find(names(es), name);
            assert forall|q: Seq<Seq<u8>>| #[trigger] at(*d, q) == if q == rest.push(name) {
                Some(ek)
            } else {
                at(old_d, q)
            } by {
                lemma_insert_here(old_d, *d, e0, q);
            }
            assert forall|q: Seq<Seq<u8>>| #[trigger] listing(*d, q) == if q == rest {
                Some(listing(old_d, q)->Some_0.push(name))
            } else if q == rest.push(name) && enode is Dir {
                Some(Seq::<Seq<u8>>::empty())
            } else {
                listing(old_d, q)
            } by {
                lemma_insert_here(old_d, *d, e0, q);
            }
        }
        return;
    }
    proof {
        lemma_find(names(d.entries@), segs@[depth as int]@);
        assert(rest[0] == segs@[depth as int]@);
    }
    let i = find_entry(&d.entries, &segs[depth]).unwrap();
    let ghost es = d.entries@;
    let DirectoryEntry { name: ename, node: enode_x } = d.entries.remove(i);
    match enode_x {
        Node::Dir(sub) => {
            let mut sub = sub;
            let ghost sub0 = sub;
            proof {
                assert(rest.drop_first() =~= views(segs@).skip(depth + 1));
            }
            insert_at(&mut sub, segs, depth + 1, entry);
            let ghost new_e = DirectoryEntry { name: ename, node: Node::Dir(sub) };
            d.entries.insert(i, DirectoryEntry { name: ename, node: Node::Dir(sub) });
            proof {
                assert(d.entries@ =~= es.update(i as int, new_e));
                lemma_names_update(es, i as int, new_e);
                let rest2 = views(segs@).skip(depth + 1);
                assert(rest.drop_first() =~= rest2);
                assert forall|q: Seq<Seq<u8>>| #[trigger] at(*d, q) == if q == rest.push(name) {
                    Some(ek)
                } else {
                    at(old_d, q)
                } by {
                    if q.len() > 0 {
                        let j = find(names(es), q[0]);
                        lemma_find(names(es), q[0]);
                        if q[0] == rest[0] {
                            lemma_push_tail(q, rest, name);
                            assert(at(*d, q) == at(sub, q.drop_first()));
                            assert(at(old_d, q) == at(sub0, q.drop_first()));
                        } else {
                            assert((rest.push(name))[0] == rest[0]);
                            if j >= 0 {
                                assert(j != i);
                            }
                        }
                    } else {
                        assert(q != rest.push(name));
                    }
                }
                assert forall|q: Seq<Seq<u8>>| #[trigger] listing(*d, q) == if q == rest {
                    Some(listing(old_d, q)->Some_0.push(name))
                } else if q == rest.push(name) && enode is Dir {
                    Some(Seq::<Seq<u8>>::empty())
                } else {
                    listing(old_d, q)
                } by {
                    if q.len() > 0 {
                        let j = find(names(es), q[0]);
                        lemma_find(names(es), q[0]);
                        if q[0] == rest[0] {
                            lemma_push_tail(q, rest, name);
                            assert(listing(*d, q) == listing(sub, q.drop_first()));
                            assert(listing(old_d, q) == listing(sub0, q.drop_first()));
                        } else {
                            assert((rest.push(name))[0] == rest[0]);
                            assert(q != rest);
                            if j >= 0 {
                                assert(j != i);
                            }
                        }
                    } else {
                        assert(q != rest.push(name));
                        assert(q != rest);
                    }
                }
            }
        },
        // The precondition names a directory here, so this arm is never taken.
        Node::File(h) => {
            proof {
                assert(listing(old_d, rest) is None);
            }
            d.entries.insert(i, DirectoryEntry { name: ename, node: Node::File(h) });
        },
    }
}

/// Removing file entry `i` from `d0` gives `d1`, as seen from every path.
proof fn lemma_remove_here(d0: Directory, d1: Directory, i: int, q: Seq<Seq<u8>>)
    requires
        0 <= i < d0.entries@.len(),
        d1.entries@ == d0.entries@.remove(i),
        distinct(names(d0.entries@)),
        d0.entries@[i].node is File,
    ensures
        at(d1, q) == if q == Seq::<Seq<u8>>::empty().push(d0.entries@[i].name@) {
            None
        } else {
            at(d0, q)
        },
        listing(d1, q) == if q == Seq::<Seq<u8>>::empty() {
            Some(names(d0.entries@).remove(i))
        } else {
            listing(d0, q)
        },
{
    let ns = names(d0.entries@);
    let name = d0.entries@[i].name@;
    let target = Seq::<Seq<u8>>::empty().push(name);
    assert(names(d1.entries@) =~= ns.remove(i));
    if q.len() == 0 {
        assert(q != target);
        assert(q =~= Seq::<Seq<u8>>::empty());
    } else {
        assert(q != Seq::<Seq<u8>>::empty());
        lemma_find(ns, q[0]);
        if q[0] == name {
            assert(ns[i] == name);
            assert(find(ns, name) == i);
            assert(!ns.remove(i).contains(name)) by {
                if ns.remove(i).contains(name) {
                    let t = choose|t: int| 0 <= t < ns.remove(i).len() && ns.remove(i)[t] == name;
                    if t < i {
                        assert(ns[t] == name);
                    } else {
                        assert(ns[t + 1] == name);
                    }
                }
            }
            lemma_find(ns.remove(i), name);
            if q.len() == 1 {
                assert(q =~= target);
            } else {
                assert(q.len() != target.len());
            }
        } else {
            assert(q[0] != target[0]);
            lemma_find_remove(ns, i, q[0]);
            let j = find(ns, q[0]);
            if j >= 0 {
                assert(j != i);
                if j < i {
                    assert(d1.entries@[j] == d0.entries@[j]);
                } else {
                    assert(d1.entries@[j - 1] == d0.entries@[j]);
                }
            }
        }
    }
}

/// Removes the file entry `name` from the directory that the segments of
/// `segs` from `depth` on name below `d`, and returns its handle.
pub fn remove_at(d: &mut Directory, segs: &Vec<Vec<u8>>, depth: usize, name: &Vec<u8>) -> (r: usize)
    requires
        depth <= segs@.len(),
        at(*old(d), views(segs@).skip(depth as int).push(name@)) matches Some(Some(_)),
        listing(*old(d), views(segs@).skip(depth as int)) is Some,
        distinct(listing(*old(d), views(segs@).skip(depth as int))->Some_0),
    ensures
        at(*old(d), views(segs@).skip(depth as int).push(name@)) == Some(Some(r)),
        forall|q: Seq<Seq<u8>>|
            #[trigger] at(*final(d), q) == if q == views(segs@).skip(depth as int).push(name@) {
                None
            } else {
                at(*old(d), q)
            },
        forall|q: Seq<Seq<u8>>|
            #[trigger] listing(*final(d), q) == if q == views(segs@).skip(depth as int) {
                Some(
                    listing(*old(d), q)->Some_0.remove(
                        find(listing(*old(d), q)->Some_0, name@),
                    ),
                )
            } else {
                listing(*old(d), q)
            },
    decreases segs@.len() - depth,
{
    let ghost rest = views(segs@).skip(depth as int);
    let ghost old_d = *d;
    if depth == segs.len() {
        proof {
            assert(rest =~= Seq::<Seq<u8>>::empty());
            let t = rest.push(name@);
            assert(t[0] == name@);
            assert(t.len() == 1);
            lemma_find(names(d.entries@), name@);
        }
        let i = find_entry(&d.entries, name).unwrap();
        let ghost es = d.entries@;
        let e = d.entries.remove(i);
        proof {
            assert(es[i as int].name@ == name@);
            let t = rest.push(name@);
            assert(find(names(old_d.entries@), t[0]) == i);
            match es[i as int].node {
                Node::Dir(sub) => {
                    assert(t.drop_first() =~= Seq::<Seq<u8>>::empty());
                    assert(at(sub, t.drop_first()) == Some(None::<usize>));
                    assert(false);
                },
                Node::File(_) => {},
            }
            assert forall|q: Seq<Seq<u8>>| #[trigger] at(*d, q) == if q == rest.push(name@) {
                None
            } else {
                at(old_d, q)
            } by {
                lemma_remove_here(old_d, *d, i as int, q);
            }
            assert forall|q: Seq<Seq<u8>>| #[trigger] listing(*d, q) == if q == rest {
                Some(listing(old_d, q)->Some_0.remove(find(listing(old_d, q)->Some_0, name@)))
            } else {
                listing(old_d, q)
            } by {
                lemma_remove_here(old_d, *d, i as int, q);
            }
        }
        match e.node {
            Node::File(h) => {
                return h;
            },
            // The precondition names a file here, so this arm is never taken.
            Node::Dir(_) => {
                return 0;
            },
        }
    }
    proof {
        lemma_find(names(d.entries@), segs@[depth as int]@);
        assert(rest[0] == segs@[depth as int]@);
        assert(rest.push(name@)[0] == rest[0]);
        assert(rest.push(name@).drop_first() =~= rest.drop_first().push(name@));
    }
    let i = find_entry(&d.entries, &segs[depth]).unwrap();
    let ghost es = d.entries@;
    let DirectoryEntry { name: ename, node: enode_x } = d.entries.remove(i);
    match enode_x {
        Node::Dir(sub) => {
            let mut sub = sub;
            let ghost sub0 = sub;
            proof {
                assert(rest.drop_first() =~= views(segs@).skip(depth + 1));
            }
            let h = remove_at(&mut sub, segs, depth + 1, name);
            let ghost new_e = DirectoryEntry { name: ename, node: Node::Dir(sub) };
            d.entries.insert(i, DirectoryEntry { name: ename, node: Node::Dir(sub) });
            proof {
                assert(d.entries@ =~= es.update(i as int, new_e));
                lemma_names_update(es, i as int, new_e);
                assert forall|q: Seq<Seq<u8>>| #[trigger] at(*d, q) == if q == rest.push(name@) {
                    None
                } else {
                    at(old_d, q)
                } by {
                    if q.len() > 0 {
                        let j = find(names(es), q[0]);
                        lemma_find(names(es), q[0]);
                        if q[0] == rest[0] {
                            lemma_push_tail(q, rest, name@);
                            assert(at(*d, q) == at(sub, q.drop_first()));
                            assert(at(old_d, q) == at(sub0, q.drop_first()));
                        } else {
                            assert((rest.push(name@))[0] == rest[0]);
                            if j >= 0 {
                                assert(j != i);
                            }
                        }
                    } else {
                        assert(q != rest.push(name@));
                    }
                }
                assert forall|q: Seq<Seq<u8>>| #[trigger] listing(*d, q) == if q == rest {
                    Some(listing(old_d, q)->Some_0.remove(find(listing(old_d, q)->Some_0, name@)))
                } else {
                    listing(old_d, q)
                } by {
                    if q.len() > 0 {
                        let j = find(names(es), q[0]);
                        lemma_find(names(es), q[0]);
                        if q[0] == rest[0] {
                            lemma_push_tail(q, rest, name@);
                            assert(listing(*d, q) == listing(sub, q.drop_first()));
                            assert(listing(old_d, q) == listing(sub0, q.drop_first()));
                        } else {
                            assert(q != rest);
                            if j >= 0 {
                                assert(j != i);
                            }
                        }
                    } else {
                        assert(q != rest);
                    }
                }
                assert(at(old_d, rest.push(name@)) == at(sub0, rest.drop_first().push(name@)));
            }
            h
        },
        // The precondition names a directory here, so this arm is never taken.
        Node::File(h) => {
            proof {
                assert(listing(old_d, rest) is None);
            }
            d.entries.insert(i, DirectoryEntry { name: ename, node: Node::File(h) });
            0
        },
    }
}

} // verus!

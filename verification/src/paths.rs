//! Paths as the library holds them: the exact bytes of the operating
//! system's path string, and the path's components, which decide whether two
//! paths name the same place (`/data/x` and `/data/x/` do).
use vstd::prelude::*;

verus! {

/// A path: `path` holds the bytes of the platform string as given, `key` the
/// bytes of each of its components, by which paths are compared.
pub struct SourcePath {
    pub path: Vec<u8>,
    pub key: Vec<Vec<u8>>,
}

/// The components of a path as values.
pub open spec fn key_view(k: Seq<Vec<u8>>) -> Seq<Seq<u8>> {
    k.map_values(|c: Vec<u8>| c@)
}

/// A path as values: its bytes and its components.
pub open spec fn path_view(s: SourcePath) -> (Seq<u8>, Seq<Seq<u8>>) {
    (s.path@, key_view(s.key@))
}

/// The values of a list of paths.
pub open spec fn path_views(s: Seq<SourcePath>) -> Seq<(Seq<u8>, Seq<Seq<u8>>)> {
    s.map_values(|x: SourcePath| path_view(x))
}

/// Appending a path appends its values.
pub proof fn lemma_path_views_push(s: Seq<SourcePath>, x: SourcePath)
    ensures
        path_views(s.push(x)) == path_views(s).push(path_view(x)),
{
    assert(path_views(s.push(x)) =~= path_views(s).push(path_view(x)));
}

/// Some path of the list has these components.
pub open spec fn listed(s: Seq<(Seq<u8>, Seq<Seq<u8>>)>, key: Seq<Seq<u8>>) -> bool {
    exists|i: int| 0 <= i < s.len() && #[trigger] s[i].1 == key
}

/// The list with a path added, unless a path naming the same place (the same
/// components) is already there.
pub open spec fn with_path(
    s: Seq<(Seq<u8>, Seq<Seq<u8>>)>,
    p: (Seq<u8>, Seq<Seq<u8>>),
) -> Seq<(Seq<u8>, Seq<Seq<u8>>)> {
    if listed(s, p.1) {
        s
    } else {
        s.push(p)
    }
}

/// No two paths of the list have the same components.
pub open spec fn keys_distinct(s: Seq<(Seq<u8>, Seq<Seq<u8>>)>) -> bool {
    forall|i: int, j: int| 0 <= i < s.len() && 0 <= j < s.len() && i != j ==> #[trigger] s[i].1 != #[trigger] s[j].1
}

/// Whether two byte strings are equal.
pub fn bytes_equal(a: &Vec<u8>, b: &Vec<u8>) -> (r: bool)
    ensures
        r == (a@ == b@),
{
    if a.len() != b.len() {
        return false;
    }
    let mut i: usize = 0;
    while i < a.len()
        invariant
            a.len() == b.len(),
            i <= a.len(),
            forall|k: int| 0 <= k < i ==> a@[k] == b@[k],
        decreases a.len() - i,
    {
        if a[i] != b[i] {
            return false;
        }
        i = i + 1;
    }
    assert(a@ =~= b@);
    true
}

/// A copy of a byte string.
pub fn copy_bytes(a: &Vec<u8>) -> (c: Vec<u8>)
    ensures
        c@ == a@,
{
    let mut c: Vec<u8> = Vec::new();
    let mut i: usize = 0;
    while i < a.len()
        invariant
            i <= a.len(),
            c@ == a@.take(i as int),
        decreases a.len() - i,
    {
        c.push(a[i]);
        i = i + 1;
        assert(c@ =~= a@.take(i as int));
    }
    assert(a@.take(a.len() as int) =~= a@);
    c
}

/// Whether two component lists are equal, that is, whether two paths name
/// the same place.
pub fn same_key(a: &Vec<Vec<u8>>, b: &Vec<Vec<u8>>) -> (r: bool)
    ensures
        r == (key_view(a@) == key_view(b@)),
{
    if a.len() != b.len() {
        assert(key_view(a@).len() != key_view(b@).len());
        return false;
    }
    let mut i: usize = 0;
    while i < a.len()
        invariant
            a.len() == b.len(),
            i <= a.len(),
            forall|k: int| 0 <= k < i ==> a@[k]@ == b@[k]@,
        decreases a.len() - i,
    {
        if !bytes_equal(&a[i], &b[i]) {
            assert(key_view(a@)[i as int] != key_view(b@)[i as int]);
            return false;
        }
        i = i + 1;
    }
    assert(key_view(a@) =~= key_view(b@));
    true
}

/// A copy of a component list.
pub fn copy_key(a: &Vec<Vec<u8>>) -> (c: Vec<Vec<u8>>)
    ensures
        key_view(c@) == key_view(a@),
{
    let mut c: Vec<Vec<u8>> = Vec::new();
    let mut i: usize = 0;
    while i < a.len()
        invariant
            i <= a.len(),
            c@.len() == i,
            forall|k: int| 0 <= k < i ==> c@[k]@ == a@[k]@,
        decreases a.len() - i,
    {
        c.push(copy_bytes(&a[i]));
        i = i + 1;
    }
    assert(key_view(c@) =~= key_view(a@));
    c
}

/// A copy of a path.
pub fn copy_path(a: &SourcePath) -> (c: SourcePath)
    ensures
        path_view(c) == path_view(*a),
{
    SourcePath { path: copy_bytes(&a.path), key: copy_key(&a.key) }
}

/// A copy of a list of paths.
pub fn copy_paths(v: &Vec<SourcePath>) -> (c: Vec<SourcePath>)
    ensures
        path_views(c@) == path_views(v@),
{
    let mut c: Vec<SourcePath> = Vec::new();
    let mut i: usize = 0;
    while i < v.len()
        invariant
            i <= v.len(),
            path_views(c@) == path_views(v@).take(i as int),
        decreases v.len() - i,
    {
        let ghost before = c@;
        let x = copy_path(&v[i]);
        c.push(x);
        proof {
            lemma_path_views_push(before, x);
        }
        i = i + 1;
        assert(path_views(c@) =~= path_views(v@).take(i as int));
    }
    assert(path_views(v@).take(v.len() as int) =~= path_views(v@));
    c
}

/// The position of the path with these components in a list, if any.
pub fn find_key(s: &Vec<SourcePath>, key: &Vec<Vec<u8>>) -> (r: Option<usize>)
    ensures
        match r {
            Some(i) => i < s@.len() && path_views(s@)[i as int].1 == key_view(key@),
            None => !listed(path_views(s@), key_view(key@)),
        },
{
    let mut i: usize = 0;
    while i < s.len()
        invariant
            i <= s.len(),
            forall|k: int| 0 <= k < i ==> key_view(s@[k].key@) != key_view(key@),
        decreases s.len() - i,
    {
        if same_key(&s[i].key, key) {
            return Some(i);
        }
        i = i + 1;
    }
    proof {
        let v = path_views(s@);
        if listed(v, key_view(key@)) {
            let k = choose|k: int| 0 <= k < v.len() && #[trigger] v[k].1 == key_view(key@);
            assert(v[k] == path_view(s@[k]));
        }
    }
    None
}

/// The components of `prefix` begin those of `key`.
pub open spec fn key_starts_with(key: Seq<Seq<u8>>, prefix: Seq<Seq<u8>>) -> bool {
    prefix.len() <= key.len() && key.take(prefix.len() as int) == prefix
}

/// Where a file lands: under the destination, a folder named after its
/// source (when the source path has a name), then the file's own components
/// below the source. A source copied by itself has no components below it.
pub open spec fn dest_components(
    dest: Seq<Seq<u8>>,
    name: Option<Seq<u8>>,
    rel: Seq<Seq<u8>>,
) -> Seq<Seq<u8>> {
    match name {
        Some(n) => dest + seq![n] + rel,
        None => dest + rel,
    }
}

/// Whether the components of `prefix` begin those of `key`.
pub fn key_has_prefix(key: &Vec<Vec<u8>>, prefix: &Vec<Vec<u8>>) -> (r: bool)
    ensures
        r == key_starts_with(key_view(key@), key_view(prefix@)),
{
    if prefix.len() > key.len() {
        return false;
    }
    let mut i: usize = 0;
    while i < prefix.len()
        invariant
            prefix.len() <= key.len(),
            i <= prefix.len(),
            forall|k: int| 0 <= k < i ==> key@[k]@ == prefix@[k]@,
        decreases prefix.len() - i,
    {
        if !bytes_equal(&key[i], &prefix[i]) {
            assert(key_view(key@).take(prefix.len() as int)[i as int] != key_view(prefix@)[i as int]);
            return false;
        }
        i = i + 1;
    }
    assert(key_view(key@).take(prefix.len() as int) =~= key_view(prefix@));
    true
}

/// The destination of a planned file, as components. `source` is the
/// source path and `name` its last name (`Path::file_name`); `file` is the
/// regular file found under a directory source, or `None` for the source
/// itself. `None` when the file's components do not begin with the
/// source's.
pub fn dest_key(
    dest: &Vec<Vec<u8>>,
    name: &Option<Vec<u8>>,
    source: &SourcePath,
    file: Option<&SourcePath>,
) -> (r: Option<Vec<Vec<u8>>>)
    ensures
        match file {
            None => r matches Some(k) && key_view(k@) == dest_components(
                key_view(dest@),
                match name {
                    Some(n) => Some(n@),
                    None => None,
                },
                Seq::empty(),
            ),
            Some(f) => if key_starts_with(key_view(f.key@), key_view(source.key@)) {
                r matches Some(k) && key_view(k@) == dest_components(
                    key_view(dest@),
                    match name {
                        Some(n) => Some(n@),
                        None => None,
                    },
                    key_view(f.key@).skip(source.key@.len() as int),
                )
            } else {
                r is None
            },
        },
{
    let mut out = copy_key(dest);
    let ghost base = key_view(out@);
    match name {
        Some(n) => {
            let ghost before = out@;
            let c = copy_bytes(n);
            out.push(c);
            proof {
                assert(key_view(out@) =~= key_view(before).push(c@));
            }
        },
        None => {},
    }
    let ghost named = key_view(out@);
    proof {
        match name {
            Some(n) => {
                assert(named =~= base + seq![n@]);
            },
            None => {
                assert(named =~= base);
            },
        }
    }
    match file {
        None => {
            proof {
                match name {
                    Some(n) => {
                        assert(named =~= base + seq![n@] + Seq::<Seq<u8>>::empty());
                    },
                    None => {
                        assert(named =~= base + Seq::<Seq<u8>>::empty());
                    },
                }
            }
            Some(out)
        },
        Some(f) => {
            if !key_has_prefix(&f.key, &source.key) {
                return None;
            }
            let mut i: usize = source.key.len();
            while i < f.key.len()
                invariant
                    source.key@.len() <= i <= f.key@.len(),
                    key_view(out@) == named + key_view(f.key@).subrange(
                        source.key@.len() as int,
                        i as int,
                    ),
                decreases f.key.len() - i,
            {
                let ghost before = out@;
                let c = copy_bytes(&f.key[i]);
                out.push(c);
                proof {
                    assert(key_view(out@) =~= key_view(before).push(c@));
                }
                i = i + 1;
                assert(key_view(out@) =~= named + key_view(f.key@).subrange(
                    source.key@.len() as int,
                    i as int,
                ));
            }
            proof {
                let rel = key_view(f.key@).skip(source.key@.len() as int);
                assert(key_view(f.key@).subrange(source.key@.len() as int, f.key@.len() as int)
                    =~= rel);
                match name {
                    Some(n) => {
                        assert(key_view(out@) =~= base + seq![n@] + rel);
                    },
                    None => {},
                }
            }
            Some(out)
        },
    }
}

/// Planned files land in different places: under one destination, two
/// files below named sources share a place only when the sources have the
/// same name and the files the same components below them. So two files of
/// one directory never collide, nor do files of differently named sources.
pub proof fn law_destinations_distinct(
    dest: Seq<Seq<u8>>,
    n1: Seq<u8>,
    rel1: Seq<Seq<u8>>,
    n2: Seq<u8>,
    rel2: Seq<Seq<u8>>,
)
    ensures
        dest_components(dest, Some(n1), rel1) == dest_components(dest, Some(n2), rel2) <==> (n1
            == n2 && rel1 == rel2),
        dest_components(dest, None, rel1) == dest_components(dest, None, rel2) <==> rel1 == rel2,
{
    let a = dest_components(dest, Some(n1), rel1);
    let b = dest_components(dest, Some(n2), rel2);
    if a == b {
        assert(a[dest.len() as int] == n1);
        assert(b[dest.len() as int] == n2);
        assert(rel1 =~= a.skip(dest.len() + 1int));
        assert(rel2 =~= b.skip(dest.len() + 1int));
    }
    let c = dest_components(dest, None, rel1);
    let d = dest_components(dest, None, rel2);
    if c == d {
        assert(rel1 =~= c.skip(dest.len() as int));
        assert(rel2 =~= d.skip(dest.len() as int));
    }
}

/// A file's destination is laid out in order: the destination folder's
/// components, then the source's name (when it has one), then exactly the
/// file's components below the source, however deep, and nothing more.
pub proof fn law_destination_layout(dest: Seq<Seq<u8>>, n: Seq<u8>, rel: Seq<Seq<u8>>)
    ensures
        ({
            let r = dest_components(dest, Some(n), rel);
            &&& r.len() == dest.len() + 1 + rel.len()
            &&& r.take(dest.len() as int) == dest
            &&& r[dest.len() as int] == n
            &&& r.skip(dest.len() + 1int) == rel
            &&& forall|i: int| 0 <= i < rel.len() ==> r[dest.len() + 1 + i] == #[trigger] rel[i]
        }),
        ({
            let r = dest_components(dest, None, rel);
            &&& r.len() == dest.len() + rel.len()
            &&& r.take(dest.len() as int) == dest
            &&& r.skip(dest.len() as int) == rel
            &&& forall|i: int| 0 <= i < rel.len() ==> r[dest.len() + i] == #[trigger] rel[i]
        }),
{
    let r = dest_components(dest, Some(n), rel);
    assert(r.take(dest.len() as int) =~= dest);
    assert(r.skip(dest.len() + 1int) =~= rel);
    let q = dest_components(dest, None, rel);
    assert(q.take(dest.len() as int) =~= dest);
    assert(q.skip(dest.len() as int) =~= rel);
}

} // verus!

//! Which cached builds a changed source file makes stale: those whose
//! outputs were collected from a project directory that holds the file.

use vstd::prelude::*;
use crate::cli::{output_dir_names, output_dirs};
use crate::entry::{CacheEntry, EntryView};
use crate::names::texts;

verus! {

/// `o` is the path of a file, named without `/`, directly inside the output
/// directory `d` of the project directory `root`.
pub open spec fn collected_in(o: Seq<char>, d: Seq<char>, root: Seq<char>) -> bool {
    exists|name: Seq<char>|
        !name.contains('/') && o == root + seq!['/'] + d + seq!['/'] + name
}

/// The cached build `e` depends on the file `source`: one of its outputs
/// was collected from a project directory that `source` lies in.
pub open spec fn depends_on(e: EntryView, source: Seq<char>) -> bool {
    exists|i: int, j: int, root: Seq<char>|
        0 <= i < e.output_paths.len() && 0 <= j < output_dir_names().len() && #[trigger] collected_in(
            e.output_paths[i],
            output_dir_names()[j],
            root,
        ) && (root + seq!['/']).is_prefix_of(source)
}

/// The index without the entries that depend on `source`.
pub open spec fn without_dependents(
    m: Map<crate::key::CacheKey, EntryView>,
    source: Seq<char>,
) -> Map<crate::key::CacheKey, EntryView> {
    m.restrict(m.dom().filter(|k: crate::key::CacheKey| !depends_on(m[k], source)))
}

/// When `o` is a file directly inside the output directory `d` of some
/// project directory, the length of that directory's path; it is the only
/// such directory.
pub fn collected_root_len(o: &str, d: &str) -> (n: Option<usize>)
    ensures
        n matches Some(l) ==> l <= o@.len(),
        forall|root: Seq<char>|
            collected_in(o@, d@, root) <==> (n matches Some(l) && root == o@.subrange(0, l as int)),
{
    let len = o.unicode_len();
    let dl = d.unicode_len();
    // The position of the last `/`.
    let mut k: usize = len;
    while k > 0 && o.get_char(k - 1) != '/'
        invariant
            k <= len,
            len == o@.len(),
            forall|j: int| k <= j < len ==> o@[j] != '/',
        decreases k,
    {
        k = k - 1;
    }
    if k == 0 {
        proof {
            assert forall|root: Seq<char>| !collected_in(o@, d@, root) by {
                if collected_in(o@, d@, root) {
                    let name = choose|name: Seq<char>|
                        !name.contains('/') && o@ == root + seq!['/'] + d@ + seq!['/'] + name;
                    let p: int = (root.len() + 1 + d@.len()) as int;
                    assert(o@[p] == '/');
                }
            }
        }
        return None;
    }
    let ls = k - 1;
    if dl >= ls {
        proof {
            assert forall|root: Seq<char>| !collected_in(o@, d@, root) by {
                if collected_in(o@, d@, root) {
                    let name = choose|name: Seq<char>|
                        !name.contains('/') && o@ == root + seq!['/'] + d@ + seq!['/'] + name;
                    let p: int = (root.len() + 1 + d@.len()) as int;
                    assert(o@[p] == '/');
                    if p > ls {
                        assert(name[p - (root.len() + 1 + d@.len() + 1)] == '/');
                    }
                    assert forall|j: int| p < j < len implies o@[j] != '/' by {
                        assert(o@[j] == name[j - (p + 1)]);
                    }
                }
            }
        }
        return None;
    }
    let start = ls - dl;
    let mut ok = o.get_char(start - 1) == '/';
    let mut j: usize = 0;
    while ok && j < dl
        invariant
            j <= dl,
            dl == d@.len(),
            len == o@.len(),
            start + dl == ls,
            ls < len,
            ok ==> forall|t: int| 0 <= t < j ==> o@[start + t] == d@[t],
            ok ==> o@[start - 1] == '/',
            !ok ==> (o@[start - 1] != '/' || (j < dl && o@[start + j] != d@[j as int])),
            start >= 1,
        decreases dl - j + (if ok { 1int } else { 0int }),
    {
        if o.get_char(start + j) != d.get_char(j) {
            ok = false;
        } else {
            j = j + 1;
        }
    }
    let matched = ok && o.get_char(start - 1) == '/';
    let n = start - 1;
    proof {
        let name = o@.subrange(ls + 1, len as int);
        assert(o@[ls as int] == '/');
        assert forall|root: Seq<char>|
            collected_in(o@, d@, root) implies (matched && root == o@.subrange(0, n as int)) by {
            let nm = choose|nm: Seq<char>|
                !nm.contains('/') && o@ == root + seq!['/'] + d@ + seq!['/'] + nm;
            let p: int = (root.len() + 1 + d@.len()) as int;
            assert(o@[p] == '/');
            if p < ls {
                assert(nm[ls - (p + 1)] == '/');
            }
            if p > ls {
                assert(o@[p] != '/');
            }
            assert(p == ls);
            assert(root.len() == start - 1);
            assert(o@[root.len() as int] == '/');
            assert(o@[start - 1] == '/');
            assert forall|t: int| 0 <= t < dl implies o@[start + t] == d@[t] by {
                assert(o@[root.len() + 1 + t] == d@[t]);
            }
            if !ok {
                if j < dl {
                    assert(o@[root.len() + 1 + j] == d@[j as int]);
                    assert(o@[start + j] == d@[j as int]);
                }
            }
            assert(ok);
            assert(matched);
            assert(root =~= o@.subrange(0, n as int));
        }
        assert forall|root: Seq<char>|
            (matched && root == o@.subrange(0, n as int)) implies collected_in(o@, d@, root) by {
            assert forall|t: int| 0 <= t < name.len() implies name[t] != '/' by {
                assert(name[t] == o@[ls + 1 + t]);
            }
            assert(!name.contains('/'));
            assert(o@ =~= root + seq!['/'] + d@ + seq!['/'] + name);
        }
    }
    if matched {
        Some(n)
    } else {
        None
    }
}

/// Whether `source` lies in the directory whose path is the first `n`
/// characters of `o`.
fn lies_in(source: &str, o: &str, n: usize) -> (inside: bool)
    requires
        n <= o@.len(),
    ensures
        inside == (o@.subrange(0, n as int) + seq!['/']).is_prefix_of(source@),
{
    let sl = source.unicode_len();
    if sl <= n {
        return false;
    }
    let mut t: usize = 0;
    while t < n
        invariant
            t <= n,
            n <= o@.len(),
            sl == source@.len(),
            n < sl,
            forall|u: int| 0 <= u < t ==> source@[u] == o@[u],
        decreases n - t,
    {
        if source.get_char(t) != o.get_char(t) {
            assert((o@.subrange(0, n as int) + seq!['/'])[t as int] != source@[t as int]);
            return false;
        }
        t = t + 1;
    }
    let slash = source.get_char(n) == '/';
    proof {
        let pre = o@.subrange(0, n as int) + seq!['/'];
        if slash {
            assert(pre =~= source@.subrange(0, pre.len() as int));
        } else {
            assert(pre[n as int] != source@[n as int]);
        }
    }
    slash
}

/// Whether the cached build `e` depends on the file `source`.
pub fn depends_on_source(e: &CacheEntry, source: &str) -> (dep: bool)
    ensures
        dep == depends_on(e@, source@),
{
    let dirs = output_dirs();
    let outs = &e.output_paths;
    let ghost ev = e@;
    assert(ev.output_paths == outs@.map_values(|p: String| p@));
    let mut i: usize = 0;
    while i < outs.len()
        invariant
            i <= outs@.len(),
            ev == e@,
            ev.output_paths == outs@.map_values(|p: String| p@),
            texts(dirs@) == output_dir_names(),
            forall|i1: int, j1: int, root: Seq<char>|
                0 <= i1 < i && 0 <= j1 < output_dir_names().len() ==> !(#[trigger] collected_in(
                    ev.output_paths[i1],
                    output_dir_names()[j1],
                    root,
                ) && (root + seq!['/']).is_prefix_of(source@)),
        decreases outs@.len() - i,
    {
        let o = outs[i].as_str();
        assert(ev.output_paths[i as int] == o@);
        let mut j: usize = 0;
        while j < dirs.len()
            invariant
                i < outs@.len(),
                j <= dirs@.len(),
                ev == e@,
                ev.output_paths == outs@.map_values(|p: String| p@),
                forall|i1: int, j1: int, root: Seq<char>|
                    0 <= i1 < i && 0 <= j1 < output_dir_names().len() ==> !(#[trigger] collected_in(
                        ev.output_paths[i1],
                        output_dir_names()[j1],
                        root,
                    ) && (root + seq!['/']).is_prefix_of(source@)),
                ev.output_paths[i as int] == o@,
                texts(dirs@) == output_dir_names(),
                forall|j1: int, root: Seq<char>|
                    0 <= j1 < j ==> !(#[trigger] collected_in(o@, output_dir_names()[j1], root) && (root
                        + seq!['/']).is_prefix_of(source@)),
            decreases dirs@.len() - j,
        {
            let d = dirs[j];
            assert(output_dir_names()[j as int] == d@);
            match collected_root_len(o, d) {
                Some(n) => {
                    if lies_in(source, o, n) {
                        assert(collected_in(o@, d@, o@.subrange(0, n as int)));
                        assert(collected_in(
                            ev.output_paths[i as int],
                            output_dir_names()[j as int],
                            o@.subrange(0, n as int),
                        ));
                        return true;
                    }
                },
                None => {},
            }
            j = j + 1;
        }
        i = i + 1;
    }
    false
}

} // verus!

//! The command-line tool's decisions: which files are build inputs, how the
//! inputs make the cache key, where outputs are collected, and how sizes
//! are shown.

use vstd::prelude::*;
use vstd::string::StringSliceAdditionalSpecFns;
use vstd::utf8::{decode_utf8, encode_utf8};
use crate::hasher::{blake3_digest, Hasher};
use crate::key::CacheKey;
use crate::names::{one_of, texts};
use crate::text::str_eq;

verus! {

/// The build description files looked for in a project root, in order.
pub open spec fn build_file_names() -> Seq<Seq<char>> {
    seq![
        "Cargo.toml"@,
        "CMakeLists.txt"@,
        "package.json"@,
        "Makefile"@,
        "meson.build"@,
        "build.gradle"@,
        "pom.xml"@,
        "go.mod"@,
    ]
}

/// The build description files looked for in a project root, in order;
/// those that exist are build inputs.
pub fn build_file_candidates() -> (names: Vec<&'static str>)
    ensures
        texts(names@) == build_file_names(),
        texts(names@) == seq!["Cargo.toml"@, "CMakeLists.txt"@, "package.json"@, "Makefile"@, "meson.build"@, "build.gradle"@, "pom.xml"@, "go.mod"@],
{
    let names = vec![
        "Cargo.toml",
        "CMakeLists.txt",
        "package.json",
        "Makefile",
        "meson.build",
        "build.gradle",
        "pom.xml",
        "go.mod",
    ];
    assert(texts(names@) =~= build_file_names());
    names
}

/// Directory names that the source walk never enters.
pub open spec fn skipped_dir_names() -> Seq<Seq<char>> {
    seq!["node_modules"@, "target"@, "build"@]
}

/// File extensions of source files.
pub open spec fn source_extensions() -> Seq<Seq<char>> {
    seq!["rs"@, "c"@, "h"@, "cpp"@, "hpp"@, "js"@, "ts"@, "py"@, "go"@, "java"@]
}

/// The directories that the source walk skips by name are exactly
/// `node_modules`, `target` and `build`.
pub proof fn skipped_dirs_are_exactly(d: Seq<char>)
    ensures
        skipped_dir_names().contains(d) <==> (d == "node_modules"@ || d == "target"@
            || d == "build"@),
{
    let s = skipped_dir_names();
    assert(s[0] == "node_modules"@ && s[1] == "target"@ && s[2] == "build"@);
}

/// The extensions of source files hashed into the key are exactly rs, c,
/// h, cpp, hpp, js, ts, py, go and java.
pub proof fn source_extensions_are_exactly(e: Seq<char>)
    ensures
        source_extensions().contains(e) <==> (e == "rs"@ || e == "c"@ || e == "h"@ || e == "cpp"@
            || e == "hpp"@ || e == "js"@ || e == "ts"@ || e == "py"@ || e == "go"@
            || e == "java"@),
{
    let s = source_extensions();
    assert(s[0] == "rs"@ && s[1] == "c"@ && s[2] == "h"@ && s[3] == "cpp"@ && s[4] == "hpp"@ && s[5] == "js"@ && s[6] == "ts"@ && s[7] == "py"@ && s[8] == "go"@ && s[9] == "java"@);
}

/// Whether the source walk enters a directory of this name (empty when the
/// name is not text): not hidden, and not a dependency or output directory.
pub fn should_descend(dir_name: &str) -> (enter: bool)
    ensures
        enter == (!(dir_name@.len() > 0 && dir_name@[0] == '.') && !skipped_dir_names().contains(
            dir_name@,
        )),
        enter == (!(dir_name@.len() > 0 && dir_name@[0] == '.') && !(dir_name@ == "node_modules"@
            || dir_name@ == "target"@ || dir_name@ == "build"@)),
{
    proof {
        skipped_dirs_are_exactly(dir_name@);
    }
    let skipped = vec!["node_modules", "target", "build"];
    assert(texts(skipped@) =~= skipped_dir_names());
    if dir_name.unicode_len() > 0 && dir_name.get_char(0) == '.' {
        return false;
    }
    !one_of(dir_name, &skipped)
}

/// Whether a file with this extension is a source file.
pub fn is_source_extension(ext: &str) -> (source: bool)
    ensures
        source == source_extensions().contains(ext@),
        source == (ext@ == "rs"@ || ext@ == "c"@ || ext@ == "h"@ || ext@ == "cpp"@
            || ext@ == "hpp"@ || ext@ == "js"@ || ext@ == "ts"@ || ext@ == "py"@ || ext@ == "go"@
            || ext@ == "java"@),
{
    proof {
        source_extensions_are_exactly(ext@);
    }
    let exts = vec!["rs", "c", "h", "cpp", "hpp", "js", "ts", "py", "go", "java"];
    assert(texts(exts@) =~= source_extensions());
    one_of(ext, &exts)
}

/// The directories, relative to the project root, whose entries are
/// collected as build outputs.
pub open spec fn output_dir_names() -> Seq<Seq<char>> {
    seq!["target/debug"@, "build"@, "dist"@]
}

/// The directories, relative to the project root, whose entries are
/// collected as build outputs.
pub fn output_dirs() -> (dirs: Vec<&'static str>)
    ensures
        texts(dirs@) == output_dir_names(),
        texts(dirs@) == seq!["target/debug"@, "build"@, "dist"@],
{
    let dirs = vec!["target/debug", "build", "dist"];
    assert(texts(dirs@) =~= output_dir_names());
    dirs
}

/// Byte sequences one after the other.
pub open spec fn concat_all(parts: Seq<Seq<u8>>) -> Seq<u8>
    decreases parts.len(),
{
    if parts.len() == 0 {
        Seq::empty()
    } else {
        concat_all(parts.drop_last()) + parts.last()
    }
}

/// Texts one after the other with a space between each two.
pub open spec fn joined_words(words: Seq<Seq<char>>) -> Seq<char>
    decreases words.len(),
{
    if words.len() == 0 {
        Seq::empty()
    } else if words.len() == 1 {
        words[0]
    } else {
        joined_words(words.drop_last()) + seq![' '] + words.last()
    }
}

/// The total length of the first `n` words.
pub open spec fn words_len(words: Seq<Seq<char>>, n: int) -> int
    decreases n,
{
    if n <= 0 {
        0
    } else {
        words_len(words, n - 1) + words[n - 1].len()
    }
}

/// The words before position `n` of two lists that agree up to there have
/// the same total length.
proof fn lemma_words_len_prefix(a: Seq<Seq<char>>, b: Seq<Seq<char>>, n: int)
    requires
        0 <= n <= a.len(),
        n <= b.len(),
        forall|i: int| 0 <= i < n ==> a[i] == b[i],
    ensures
        words_len(a, n) == words_len(b, n),
    decreases n,
{
    if n > 0 {
        lemma_words_len_prefix(a, b, n - 1);
    }
}

/// Word lengths are not negative.
proof fn lemma_words_len_nonneg(a: Seq<Seq<char>>, n: int)
    ensures
        words_len(a, n) >= 0,
    decreases n,
{
    if n > 0 {
        lemma_words_len_nonneg(a, n - 1);
    }
}

/// The joined command line holds every word, in order, separated by single
/// spaces: it is as long as the words together plus one space between each
/// two, word `i` starts after the words before it and `i` spaces, and a
/// space stands just before each word but the first.
pub proof fn joined_words_layout(words: Seq<Seq<char>>)
    ensures
        words.len() == 0 ==> joined_words(words).len() == 0,
        words.len() > 0 ==> joined_words(words).len() == words_len(words, words.len() as int) + words.len()
            - 1,
        forall|i: int, j: int|
            0 <= i < words.len() && 0 <= j < words[i].len() ==> joined_words(words)[words_len(words, i) + i
                + j] == #[trigger] words[i][j],
        forall|i: int|
            1 <= i < words.len() ==> joined_words(words)[#[trigger] words_len(words, i) + i - 1] == ' ',
    decreases words.len(),
{
    let n = words.len() as int;
    if n == 1 {
        assert(words_len(words, 1) == words_len(words, 0) + words[0].len());
        assert forall|i: int, j: int|
            0 <= i < words.len() && 0 <= j < words[i].len() implies joined_words(words)[words_len(words, i)
            + i + j] == #[trigger] words[i][j] by {
            assert(i == 0);
        }
    } else if n >= 2 {
        let init = words.drop_last();
        joined_words_layout(init);
        let ji = joined_words(init);
        let jw = joined_words(words);
        assert(jw == ji + seq![' '] + words.last());
        lemma_words_len_prefix(words, init, n - 1);
        assert(words_len(words, n) == words_len(words, n - 1) + words[n - 1].len());
        assert forall|i: int, j: int|
            0 <= i < words.len() && 0 <= j < words[i].len() implies jw[words_len(words, i) + i + j]
            == #[trigger] words[i][j] by {
            if i < n - 1 {
                lemma_words_len_prefix(words, init, i);
                lemma_words_len_nonneg(init, i);
                assert(init[i] == words[i]);
                assert(init[i][j] == words[i][j]);
                lemma_words_len_increasing(init, i + 1, n - 1);
                assert(words_len(init, i + 1) == words_len(init, i) + init[i].len());
            }
        }
        assert forall|i: int| 1 <= i < words.len() implies jw[#[trigger] words_len(words, i) + i - 1] == ' ' by {
            if i < n - 1 {
                lemma_words_len_prefix(words, init, i);
                lemma_words_len_nonneg(init, i);
                lemma_words_len_increasing(init, i, n - 1);
                assert(init[i - 1] == words[i - 1]);
                assert(ji[words_len(init, i) + i - 1] == ' ');
            }
        }
    }
}

/// Totals of longer prefixes are no smaller.
proof fn lemma_words_len_increasing(a: Seq<Seq<char>>, m: int, n: int)
    requires
        0 <= m <= n,
    ensures
        words_len(a, m) <= words_len(a, n),
    decreases n - m,
{
    if m < n {
        lemma_words_len_increasing(a, m, n - 1);
    }
}

/// No word of the list holds a space.
pub open spec fn spaceless(words: Seq<Seq<char>>) -> bool {
    forall|i: int| 0 <= i < words.len() ==> !(#[trigger] words[i]).contains(' ')
}

/// Two lists of at least one word each, no word holding a space, join to
/// the same command line only when they are the same list.
pub proof fn joined_words_injective(a: Seq<Seq<char>>, b: Seq<Seq<char>>)
    requires
        a.len() >= 1,
        b.len() >= 1,
        spaceless(a),
        spaceless(b),
        joined_words(a) == joined_words(b),
    ensures
        a == b,
    decreases a.len() + b.len(),
{
    let ja = joined_words(a);
    if a.len() == 1 && b.len() == 1 {
        assert(a =~= b);
    } else if a.len() == 1 {
        let jb0 = joined_words(b.drop_last());
        assert(ja == jb0 + seq![' '] + b.last());
        assert(ja[jb0.len() as int] == ' ');
        assert(a[0].contains(' '));
    } else if b.len() == 1 {
        let ja0 = joined_words(a.drop_last());
        assert(ja == ja0 + seq![' '] + a.last());
        assert(ja[ja0.len() as int] == ' ');
        assert(b[0].contains(' '));
    } else {
        let ia = a.drop_last();
        let ib = b.drop_last();
        let xa = a.last();
        let xb = b.last();
        assert(ja == joined_words(ia) + seq![' '] + xa);
        assert(ja == joined_words(ib) + seq![' '] + xb);
        assert(!xa.contains(' '));
        assert(!xb.contains(' '));
        let len = ja.len() as int;
        if xa.len() < xb.len() {
            let p = len - xa.len() - 1;
            assert(ja[p] == ' ');
            assert(xb[p - (len - xb.len())] == ' ');
        }
        if xb.len() < xa.len() {
            let p = len - xb.len() - 1;
            assert(ja[p] == ' ');
            assert(xa[p - (len - xa.len())] == ' ');
        }
        assert(xa =~= ja.subrange(len - xa.len(), len));
        assert(xb =~= ja.subrange(len - xb.len(), len));
        assert(joined_words(ia) =~= ja.subrange(0, len - xa.len() - 1));
        assert(joined_words(ib) =~= ja.subrange(0, len - xb.len() - 1));
        assert(spaceless(ia));
        assert(spaceless(ib));
        joined_words_injective(ia, ib);
        assert(a =~= ia.push(xa));
        assert(b =~= ib.push(xb));
    }
}

/// Two command lines of different words (at least one word each, none
/// holding a space) give different bytes to hash, so the keys differ
/// unless BLAKE3 collides.
pub proof fn key_input_tracks_command_words(
    files: Seq<Seq<u8>>,
    command1: Seq<Seq<char>>,
    command2: Seq<Seq<char>>,
    search_path: Seq<char>,
    toolchain: Option<Seq<char>>,
)
    requires
        command1 != command2,
        command1.len() >= 1,
        command2.len() >= 1,
        spaceless(command1),
        spaceless(command2),
    ensures
        build_key_input(files, command1, search_path, toolchain) != build_key_input(
            files,
            command2,
            search_path,
            toolchain,
        ),
{
    if joined_words(command1) == joined_words(command2) {
        joined_words_injective(command1, command2);
    }
    key_input_tracks_command(files, command1, command2, search_path, toolchain);
}

/// The bytes hashed into a build's cache key: the contents of the input
/// files that could be read, in order, then the command's words joined by
/// spaces, then the search path, then the toolchain name if one is set.
pub open spec fn build_key_input(
    files: Seq<Seq<u8>>,
    command: Seq<Seq<char>>,
    search_path: Seq<char>,
    toolchain: Option<Seq<char>>,
) -> Seq<u8> {
    concat_all(files) + encode_utf8(joined_words(command)) + encode_utf8(search_path)
        + toolchain_bytes(toolchain)
}

/// The bytes a toolchain name adds to the key input.
pub open spec fn toolchain_bytes(toolchain: Option<Seq<char>>) -> Seq<u8> {
    match toolchain {
        Some(t) => encode_utf8(t),
        None => Seq::empty(),
    }
}

/// Two sequences with the same prefix and the same suffix are equal only
/// if their middles are.
proof fn lemma_middle_cancel(a: Seq<u8>, x: Seq<u8>, y: Seq<u8>, t: Seq<u8>)
    requires
        a + x + t == a + y + t,
    ensures
        x == y,
{
    let l = a + x + t;
    assert(l.len() == (a + y + t).len());
    assert(x.len() == y.len());
    assert(x =~= l.subrange(a.len() as int, (a.len() + x.len()) as int));
    assert(y =~= (a + y + t).subrange(a.len() as int, (a.len() + y.len()) as int));
}

/// Concatenating two lists of byte sequences concatenates their bytes.
proof fn lemma_concat_all_add(s: Seq<Seq<u8>>, t: Seq<Seq<u8>>)
    ensures
        concat_all(s + t) == concat_all(s) + concat_all(t),
    decreases t.len(),
{
    if t.len() == 0 {
        assert(s + t =~= s);
        assert(concat_all(s) + concat_all(t) =~= concat_all(s));
    } else {
        lemma_concat_all_add(s, t.drop_last());
        assert((s + t).drop_last() =~= s + t.drop_last());
        assert(concat_all(s) + concat_all(t.drop_last()) + t.last() =~= concat_all(s) + (
        concat_all(t.drop_last()) + t.last()));
    }
}

/// The bytes of a list of files around its `i`-th file.
proof fn lemma_concat_all_split(s: Seq<Seq<u8>>, i: int)
    requires
        0 <= i < s.len(),
    ensures
        concat_all(s) == concat_all(s.take(i)) + s[i] + concat_all(s.skip(i + 1)),
{
    assert(s =~= s.take(i) + seq![s[i]] + s.skip(i + 1));
    lemma_concat_all_add(s.take(i) + seq![s[i]], s.skip(i + 1));
    lemma_concat_all_add(s.take(i), seq![s[i]]);
    let one = seq![s[i]];
    assert(one.drop_last() =~= Seq::<Seq<u8>>::empty());
    assert(one.last() == s[i]);
    assert(concat_all(one.drop_last()) =~= Seq::<u8>::empty());
    assert(concat_all(one) =~= s[i]);
}

/// Changing the contents of one input file changes the bytes the cache
/// key hashes, so the key changes unless BLAKE3 collides.
pub proof fn key_input_tracks_file(
    files: Seq<Seq<u8>>,
    i: int,
    contents: Seq<u8>,
    command: Seq<Seq<char>>,
    search_path: Seq<char>,
    toolchain: Option<Seq<char>>,
)
    requires
        0 <= i < files.len(),
        contents != files[i],
    ensures
        build_key_input(files.update(i, contents), command, search_path, toolchain)
            != build_key_input(files, command, search_path, toolchain),
{
    let g = files.update(i, contents);
    lemma_concat_all_split(files, i);
    lemma_concat_all_split(g, i);
    assert(g.take(i) =~= files.take(i));
    assert(g.skip(i + 1) =~= files.skip(i + 1));
    let a = concat_all(files.take(i));
    let t = concat_all(files.skip(i + 1)) + encode_utf8(joined_words(command)) + encode_utf8(
        search_path,
    ) + toolchain_bytes(toolchain);
    assert(build_key_input(g, command, search_path, toolchain) =~= a + contents + t);
    assert(build_key_input(files, command, search_path, toolchain) =~= a + files[i] + t);
    if a + contents + t == a + files[i] + t {
        lemma_middle_cancel(a, contents, files[i], t);
    }
}

/// Two command lines that join to different texts give different bytes to
/// hash, so the keys differ unless BLAKE3 collides.
pub proof fn key_input_tracks_command(
    files: Seq<Seq<u8>>,
    command1: Seq<Seq<char>>,
    command2: Seq<Seq<char>>,
    search_path: Seq<char>,
    toolchain: Option<Seq<char>>,
)
    requires
        joined_words(command1) != joined_words(command2),
    ensures
        build_key_input(files, command1, search_path, toolchain) != build_key_input(
            files,
            command2,
            search_path,
            toolchain,
        ),
{
    let a = concat_all(files);
    let x = encode_utf8(joined_words(command1));
    let y = encode_utf8(joined_words(command2));
    let t = encode_utf8(search_path) + toolchain_bytes(toolchain);
    assert(build_key_input(files, command1, search_path, toolchain) =~= a + x + t);
    assert(build_key_input(files, command2, search_path, toolchain) =~= a + y + t);
    if a + x + t == a + y + t {
        lemma_middle_cancel(a, x, y, t);
        vstd::utf8::encode_utf8_decode_utf8(joined_words(command1));
        vstd::utf8::encode_utf8_decode_utf8(joined_words(command2));
    }
}

/// Two different search paths give different bytes to hash, so the keys
/// differ unless BLAKE3 collides.
pub proof fn key_input_tracks_search_path(
    files: Seq<Seq<u8>>,
    command: Seq<Seq<char>>,
    path1: Seq<char>,
    path2: Seq<char>,
    toolchain: Option<Seq<char>>,
)
    requires
        path1 != path2,
    ensures
        build_key_input(files, command, path1, toolchain) != build_key_input(
            files,
            command,
            path2,
            toolchain,
        ),
{
    let a = concat_all(files) + encode_utf8(joined_words(command));
    let x = encode_utf8(path1);
    let y = encode_utf8(path2);
    let t = toolchain_bytes(toolchain);
    assert(build_key_input(files, command, path1, toolchain) =~= a + x + t);
    assert(build_key_input(files, command, path2, toolchain) =~= a + y + t);
    if a + x + t == a + y + t {
        lemma_middle_cancel(a, x, y, t);
        vstd::utf8::encode_utf8_decode_utf8(path1);
        vstd::utf8::encode_utf8_decode_utf8(path2);
    }
}

/// Two different toolchain settings give different bytes to hash, so the
/// keys differ unless BLAKE3 collides; an unset toolchain and one set to
/// the empty name are the exception, for both add no bytes.
pub proof fn key_input_tracks_toolchain(
    files: Seq<Seq<u8>>,
    command: Seq<Seq<char>>,
    search_path: Seq<char>,
    toolchain1: Option<Seq<char>>,
    toolchain2: Option<Seq<char>>,
)
    requires
        toolchain1 != toolchain2,
        !(toolchain1 is None && toolchain2 == Some(Seq::<char>::empty())),
        !(toolchain2 is None && toolchain1 == Some(Seq::<char>::empty())),
    ensures
        build_key_input(files, command, search_path, toolchain1) != build_key_input(
            files,
            command,
            search_path,
            toolchain2,
        ),
{
    let a = concat_all(files) + encode_utf8(joined_words(command)) + encode_utf8(search_path);
    let x = toolchain_bytes(toolchain1);
    let y = toolchain_bytes(toolchain2);
    let t = Seq::<u8>::empty();
    assert(build_key_input(files, command, search_path, toolchain1) =~= a + x + t);
    assert(build_key_input(files, command, search_path, toolchain2) =~= a + y + t);
    if a + x + t == a + y + t {
        lemma_middle_cancel(a, x, y, t);
        match (toolchain1, toolchain2) {
            (Some(p), Some(q)) => {
                vstd::utf8::encode_utf8_decode_utf8(p);
                vstd::utf8::encode_utf8_decode_utf8(q);
            },
            (Some(p), None) => {
                vstd::utf8::encode_utf8_decode_utf8(p);
                assert(decode_utf8(Seq::<u8>::empty()) =~= Seq::<char>::empty());
            },
            (None, Some(q)) => {
                vstd::utf8::encode_utf8_decode_utf8(q);
                assert(decode_utf8(Seq::<u8>::empty()) =~= Seq::<char>::empty());
            },
            (None, None) => {},
        }
    }
}

/// Joins the command's words with single spaces.
pub fn join_words(words: &Vec<String>) -> (line: String)
    ensures
        line@ == joined_words(words@.map_values(|w: String| w@)),
        words@.len() > 0 ==> line@.len() == words_len(words@.map_values(|w: String| w@), words@.len() as int)
            + words@.len() - 1,
        forall|i: int, j: int|
            0 <= i < words@.len() && 0 <= j < words@[i]@.len() ==> line@[words_len(
                words@.map_values(|w: String| w@),
                i,
            ) + i + j] == #[trigger] words@[i]@[j],
{
    let ghost ws = words@.map_values(|w: String| w@);
    let mut line = String::new();
    let mut i: usize = 0;
    while i < words.len()
        invariant
            i <= words@.len(),
            ws == words@.map_values(|w: String| w@),
            line@ == joined_words(ws.take(i as int)),
        decreases words@.len() - i,
    {
        if i > 0 {
            proof {
                reveal_strlit(" ");
            }
            line.append(" ");
        }
        line.append(words[i].as_str());
        assert(ws.take(i + 1).drop_last() =~= ws.take(i as int));
        proof {
            if i == 0 {
                assert(ws.take(1) =~= seq![ws[0]]);
            }
        }
        i = i + 1;
    }
    assert(ws.take(words@.len() as int) =~= ws);
    proof {
        joined_words_layout(ws);
        assert forall|i: int, j: int|
            0 <= i < words@.len() && 0 <= j < words@[i]@.len() implies line@[words_len(ws, i) + i + j]
            == #[trigger] words@[i]@[j] by {
            assert(ws[i] == words@[i]@);
            assert(ws[i][j] == words@[i]@[j]);
        }
    }
    line
}

/// The cache key of a build: the BLAKE3 hash of its input files' contents
/// (those that could be read), its command line, the search path and the
/// toolchain name if one is set.
pub fn build_key(
    files: &Vec<Vec<u8>>,
    command: &Vec<String>,
    search_path: &str,
    toolchain: Option<&str>,
) -> (key: CacheKey)
    ensures
        key.bytes() == blake3_digest(
            build_key_input(
                files@.map_values(|f: Vec<u8>| f@),
                command@.map_values(|w: String| w@),
                search_path@,
                match toolchain {
                    Some(t) => Some(t@),
                    None => None,
                },
            ),
        ),
{
    let ghost fs = files@.map_values(|f: Vec<u8>| f@);
    let mut hasher = Hasher::new();
    let mut i: usize = 0;
    while i < files.len()
        invariant
            i <= files@.len(),
            fs == files@.map_values(|f: Vec<u8>| f@),
            hasher@ == concat_all(fs.take(i as int)),
        decreases files@.len() - i,
    {
        hasher.update(files[i].as_slice());
        assert(fs.take(i + 1).drop_last() =~= fs.take(i as int));
        i = i + 1;
    }
    assert(fs.take(files@.len() as int) =~= fs);
    let line = join_words(command);
    hasher.update_str(line.as_str());
    hasher.update_str(search_path);
    if let Some(t) = toolchain {
        hasher.update_str(t);
    }
    assert(hasher@ =~= build_key_input(
        fs,
        command@.map_values(|w: String| w@),
        search_path@,
        match toolchain {
            Some(t) => Some(t@),
            None => None,
        },
    ));
    CacheKey::new(hasher.finalize())
}

/// What the build command has just learned.
pub enum BuildEvent {
    /// The cache was looked up for the build's key.
    CacheChecked { hit: bool },
    /// The real build command exited.
    BuildExited { success: bool },
}

/// What the build command does next.
pub enum BuildAction {
    /// Restore the cached outputs; the build is done.
    Restore,
    /// Run the real build command.
    RunBuild,
    /// Collect the build's outputs and store them under the key; the build
    /// is done.
    CollectAndStore,
    /// Stop with the build's failure; nothing is stored.
    FailBuild,
}

/// The build lifecycle: a cache hit is restored unless a rebuild is forced,
/// otherwise the real build runs; a build that succeeded has its outputs
/// collected and stored, one that failed ends the command with an error.
pub fn next_build_action(force: bool, event: BuildEvent) -> (action: BuildAction)
    ensures
        event matches BuildEvent::CacheChecked { hit } ==> (if hit && !force {
            action is Restore
        } else {
            action is RunBuild
        }),
        event matches BuildEvent::BuildExited { success } ==> (if success {
            action is CollectAndStore
        } else {
            action is FailBuild
        }),
{
    match event {
        BuildEvent::CacheChecked { hit } => {
            if hit && !force {
                BuildAction::Restore
            } else {
                BuildAction::RunBuild
            }
        },
        BuildEvent::BuildExited { success } => {
            if success {
                BuildAction::CollectAndStore
            } else {
                BuildAction::FailBuild
            }
        },
    }
}

/// The unit a size is shown in.
pub enum SizeUnit {
    Bytes,
    KiB,
    MiB,
    GiB,
}

/// The largest binary unit not exceeding the size (bytes below 1024).
pub fn size_unit(bytes: u64) -> (unit: SizeUnit)
    ensures
        bytes >= 1073741824 ==> unit is GiB,
        1048576 <= bytes < 1073741824 ==> unit is MiB,
        1024 <= bytes < 1048576 ==> unit is KiB,
        bytes < 1024 ==> unit is Bytes,
{
    if bytes >= 1024 * 1024 * 1024 {
        SizeUnit::GiB
    } else if bytes >= 1024 * 1024 {
        SizeUnit::MiB
    } else if bytes >= 1024 {
        SizeUnit::KiB
    } else {
        SizeUnit::Bytes
    }
}

} // verus!

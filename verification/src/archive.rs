use vstd::prelude::*;
use vstd::utf8::{decode_utf8, valid_utf8};
use crate::model::{TypstFile, TypstPackageFile};
use crate::paths::{
    deck_for_path, has_ignored_segment, opt_seqs, resolve_prefix, resolve_parts,
    spec_deck_for_path, spec_has_ignored_segment, spec_normalize, normalize_relative_path,
};
use crate::text::{
    chars_of, has_suffix, join_chars, join_with, seqs_of, split_chars, split_on, ends_with,
    string_of,
};

verus! {

broadcast use vstd::string::group_string_axioms;

/// One member of a tar archive: whether it is a regular file, its path, its bytes.
#[derive(Default)]
pub struct TarEntry {
    pub is_file: bool,
    pub path: String,
    pub data: Vec<u8>,
}

pub open spec fn entry_views(v: Seq<TarEntry>) -> Seq<(bool, Seq<char>, Seq<u8>)> {
    Seq::new(v.len(), |i: int| (v[i].is_file, v[i].path@, v[i].data@))
}

/// What reading a gzip-compressed tar archive gives: its members in order, each marked
/// whether it is a regular file; a regular file with its path converted to text (invalid
/// UTF-8 replaced) and its bytes, any other member with an empty path and no bytes; or the
/// text of the first error.
pub uninterp spec fn tar_gz_entries(bytes: Seq<u8>) -> Result<Seq<(bool, Seq<char>, Seq<u8>)>, Seq<char>>;

pub open spec fn entries_result(r: Result<Vec<TarEntry>, String>) -> Result<Seq<(bool, Seq<char>, Seq<u8>)>, Seq<char>> {
    match r {
        Ok(v) => Ok(entry_views(v@)),
        Err(e) => Err(e@),
    }
}

/// Reads a `.tar.gz` archive with `flate2::read::GzDecoder` and `tar::Archive::entries`:
/// for each member, whether `entry_type().is_file()`; for a regular file also its `path()`
/// (lossy text) and its bytes (`read_to_end`), while the path and bytes of other members
/// are not read; any error ends the read with its text. The result is named
/// `tar_gz_entries`; nothing more is stated of it.
#[verifier::external_body]
fn read_tar_gz(bytes: &[u8]) -> (r: Result<Vec<TarEntry>, String>)
    ensures
        entries_result(r) == tar_gz_entries(bytes@),
{
    let mut archive = tar::Archive::new(flate2::read::GzDecoder::new(bytes));
    let mut out = Vec::new();
    for entry in archive.entries().map_err(|e| e.to_string())? {
        let mut entry = entry.map_err(|e| e.to_string())?;
        if !entry.header().entry_type().is_file() {
            out.push(TarEntry::default());
            continue;
        }
        let path = entry.path().map_err(|e| e.to_string())?.to_string_lossy().into_owned();
        let mut data = Vec::new();
        std::io::Read::read_to_end(&mut entry, &mut data).map_err(|e| e.to_string())?;
        out.push(TarEntry { is_file: true, path, data });
    }
    Ok(out)
}

/// What `String::from_utf8`'s error reports for bytes that are not UTF-8.
pub uninterp spec fn utf8_error_text(bytes: Seq<u8>) -> Seq<char>;

/// `String::from_utf8`: the text of the bytes when they are valid UTF-8, else the text of
/// the error (named `utf8_error_text`).
#[verifier::external_body]
pub(crate) fn string_from_utf8(bytes: Vec<u8>) -> (r: Result<String, String>)
    ensures
        r is Ok <==> valid_utf8(bytes@),
        r matches Ok(s) ==> s@ == decode_utf8(bytes@),
        r matches Err(e) ==> e@ == utf8_error_text(bytes@),
{
    String::from_utf8(bytes).map_err(|e| e.to_string())
}

/// The text of the bytes when they are valid UTF-8.
pub fn utf8_to_string(bytes: Vec<u8>) -> (r: Option<String>)
    ensures
        r is Some <==> valid_utf8(bytes@),
        r matches Some(s) ==> s@ == decode_utf8(bytes@),
{
    match string_from_utf8(bytes) {
        Ok(s) => Some(s),
        Err(_) => None,
    }
}

/// The text `read_to_string` reports for bytes that are not UTF-8.
pub open spec fn invalid_utf8_message() -> Seq<char> {
    "stream did not contain valid UTF-8"@
}

/// A member's path relative to the workspace: normalized, with the archive's top-level
/// directory dropped first when `strip_root` is set.
pub open spec fn member_path(path: Seq<char>, strip_root: bool) -> Option<Seq<char>> {
    if strip_root {
        match resolve_parts(split_on(path, '/').skip(1)) {
            Some(parts) => Some(join_with(parts, '/')),
            None => None,
        }
    } else {
        spec_normalize(path)
    }
}

pub open spec fn file_triples_of(v: Seq<TypstFile>) -> Seq<(Seq<char>, Seq<char>, Seq<char>)> {
    Seq::new(v.len(), |i: int| (v[i].path@, v[i].deck@, v[i].source@))
}

/// The `.typ` files of an archive's members, in order: regular files whose relative path
/// ends in `.typ` and has no hidden or `node_modules` piece; one that is not UTF-8 ends
/// the read with an error.
pub open spec fn typst_files_of(entries: Seq<(bool, Seq<char>, Seq<u8>)>, strip_root: bool) -> Result<
    Seq<(Seq<char>, Seq<char>, Seq<char>)>,
    Seq<char>,
>
    decreases entries.len(),
{
    if entries.len() == 0 {
        Ok(Seq::empty())
    } else {
        match typst_files_of(entries.drop_last(), strip_root) {
            Err(e) => Err(e),
            Ok(prev) => {
                let (is_file, path, data) = entries.last();
                if !is_file {
                    Ok(prev)
                } else {
                    match member_path(path, strip_root) {
                        None => Ok(prev),
                        Some(rel) => if !ends_with(rel, ".typ"@) || spec_has_ignored_segment(rel) {
                            Ok(prev)
                        } else if !valid_utf8(data) {
                            Err(invalid_utf8_message())
                        } else {
                            Ok(prev.push((rel, spec_deck_for_path(rel), decode_utf8(data))))
                        },
                    }
                }
            },
        }
    }
}

fn member_path_exec(path: &String, strip_root: bool) -> (r: Option<String>)
    ensures
        crate::paths::opt_view(r) == member_path(path@, strip_root),
{
    if strip_root {
        let chars = chars_of(path.as_str());
        let segs = split_chars(&chars, '/');
        let mut rest: Vec<Vec<char>> = Vec::new();
        let mut i: usize = 1;
        assert(seqs_of(segs@).skip(1).take(0) =~= seqs_of(rest@));
        while i < segs.len()
            invariant
                1 <= i <= segs.len(),
                seqs_of(rest@) == seqs_of(segs@).skip(1).take(i - 1),
            decreases segs.len() - i,
        {
            let piece = segs[i].clone();
            assert(piece@ =~= segs@[i as int]@);
            let ghost before = rest@;
            rest.push(piece);
            assert(seqs_of(rest@) =~= seqs_of(before).push(piece@));
            assert(seqs_of(segs@).skip(1).take(i as int) =~= seqs_of(segs@).skip(1).take(i - 1).push(
                segs@[i as int]@,
            ));
            i += 1;
        }
        assert(seqs_of(segs@).skip(1).take(segs.len() - 1) =~= seqs_of(segs@).skip(1));
        assert(seqs_of(rest@).take(rest.len() as int) =~= seqs_of(rest@));
        match resolve_prefix(&rest, rest.len()) {
            Some(parts) => Some(string_of(&join_chars(&parts, '/'))),
            None => None,
        }
    } else {
        normalize_relative_path(path.as_str())
    }
}

pub open spec fn files_result(r: Result<Vec<TypstFile>, String>) -> Result<
    Seq<(Seq<char>, Seq<char>, Seq<char>)>,
    Seq<char>,
> {
    match r {
        Ok(v) => Ok(file_triples_of(v@)),
        Err(e) => Err(e@),
    }
}

/// The `.typ` files of a `.tar.gz` archive (for a GitHub tarball, `strip_root` drops the
/// archive's top-level directory).
pub fn typst_files_from_tar_gz(bytes: &[u8], strip_root: bool) -> (r: Result<Vec<TypstFile>, String>)
    ensures
        files_result(r) == match tar_gz_entries(bytes@) {
            Err(e) => Err(e),
            Ok(entries) => typst_files_of(entries, strip_root),
        },
{
    match read_tar_gz(bytes) {
        Ok(entries) => typst_files_from_entries(entries, strip_root),
        Err(e) => Err(e),
    }
}

/// The `.typ` files among the members of a tar archive, in order: each regular file whose
/// path (without the top-level directory when `strip_root`) normalizes to a `.typ` path
/// outside ignored directories, with its deck and its text; an error when such a file is
/// not UTF-8.
pub fn typst_files_from_entries(entries: Vec<TarEntry>, strip_root: bool) -> (r: Result<Vec<TypstFile>, String>)
    ensures
        files_result(r) == typst_files_of(entry_views(entries@), strip_root),
{
    let ghost ev = entry_views(entries@);
    let mut files: Vec<TypstFile> = Vec::new();
    let mut i: usize = 0;
    assert(ev.take(0) =~= Seq::<(bool, Seq<char>, Seq<u8>)>::empty());
    assert(file_triples_of(files@) =~= Seq::<(Seq<char>, Seq<char>, Seq<char>)>::empty());
    for entry in it: entries
        invariant
            it.seq() == entries@,
            ev == entry_views(entries@),
            typst_files_of(ev.take(it.index() as int), strip_root) == Ok::<
                Seq<(Seq<char>, Seq<char>, Seq<char>)>,
                Seq<char>,
            >(file_triples_of(files@)),
    {
        let ghost k = it.index() as int;
        assert(ev.take(k + 1).drop_last() =~= ev.take(k));
        assert(ev.take(k + 1).last() == (entry.is_file, entry.path@, entry.data@));
        if entry.is_file {
            match member_path_exec(&entry.path, strip_root) {
                None => {},
                Some(rel) => {
                    let rc = chars_of(rel.as_str());
                    let ext = chars_of(".typ");
                    if has_suffix(&rc, &ext) && !has_ignored_segment(rel.as_str()) {
                        match utf8_to_string(entry.data) {
                            None => {
                                assert(typst_files_of(ev.take(k + 1), strip_root) == Err::<
                                    Seq<(Seq<char>, Seq<char>, Seq<char>)>,
                                    Seq<char>,
                                >(invalid_utf8_message()));
                                proof {
                                    lemma_files_error_extends(ev, k + 1, strip_root);
                                }
                                let msg = "stream did not contain valid UTF-8".to_string();
                                assert(msg@ == invalid_utf8_message());
                                return Err(msg);
                            },
                            Some(source) => {
                                let deck = deck_for_path(rel.as_str());
                                let ghost before = file_triples_of(files@);
                                files.push(TypstFile { path: rel, deck, source });
                                assert(file_triples_of(files@) =~= before.push(
                                    (rel@, spec_deck_for_path(rel@), source@),
                                ));
                            },
                        }
                    }
                },
            }
        }
    }
    assert(ev.take(ev.len() as int) =~= ev);
    Ok(files)
}

pub proof fn lemma_files_error_extends(
    ev: Seq<(bool, Seq<char>, Seq<u8>)>,
    k: int,
    strip_root: bool,
)
    requires
        0 <= k <= ev.len(),
        typst_files_of(ev.take(k), strip_root) == Err::<Seq<(Seq<char>, Seq<char>, Seq<char>)>, Seq<char>>(invalid_utf8_message()),
    ensures
        typst_files_of(ev, strip_root) == Err::<Seq<(Seq<char>, Seq<char>, Seq<char>)>, Seq<char>>(invalid_utf8_message()),
    decreases ev.len() - k,
{
    if k < ev.len() {
        assert(ev.drop_last().take(k) =~= ev.take(k));
        lemma_files_error_extends(ev.drop_last(), k, strip_root);
    } else {
        assert(ev.take(k) =~= ev);
    }
}

/// The text before and after the first slash.
pub open spec fn split_once_slash(p: Seq<char>) -> Option<(Seq<char>, Seq<char>)> {
    let k = crate::graph::index_of(p, '/');
    if k < 0 {
        None
    } else {
        Some((p.take(k), p.skip(k + 1)))
    }
}

/// Scans package member paths for a shared top-level directory: none as soon as a path
/// has no slash, an empty head or tail, or a head other than the first one; otherwise the
/// head and whether some path is `<head>/typst.toml`.
pub open spec fn root_scan(paths: Seq<Seq<char>>) -> Option<(Option<Seq<char>>, bool)>
    decreases paths.len(),
{
    if paths.len() == 0 {
        Some((None, false))
    } else {
        match root_scan(paths.drop_last()) {
            None => None,
            Some((root, manifest)) => match split_once_slash(paths.last()) {
                None => None,
                Some((head, tail)) => if head.len() == 0 || tail.len() == 0 {
                    None
                } else {
                    match root {
                        Some(r) => if r != head {
                            None
                        } else {
                            Some((root, manifest || tail == "typst.toml"@))
                        },
                        None => Some((Some(head), manifest || tail == "typst.toml"@)),
                    }
                },
            },
        }
    }
}

/// The directory a package archive wraps its files in: the common head of all paths when
/// it holds `typst.toml` and is not `src`.
pub open spec fn spec_archive_root(paths: Seq<Seq<char>>) -> Option<Seq<char>> {
    match root_scan(paths) {
        Some((Some(r), true)) => if r != "src"@ {
            Some(r)
        } else {
            None
        },
        _ => None,
    }
}

/// Finds the directory a package archive wraps its files in, if any.
pub fn package_archive_root_segment(paths: &[String]) -> (r: Option<String>)
    ensures
        crate::paths::opt_view(r) == spec_archive_root(crate::text::views_of(paths@)),
{
    let ghost all = crate::text::views_of(paths@);
    let mut root: Option<Vec<char>> = None;
    let mut manifest = false;
    let toml = chars_of("typst.toml");
    let src = chars_of("src");
    let mut i: usize = 0;
    assert(all.take(0) =~= Seq::<Seq<char>>::empty());
    while i < paths.len()
        invariant
            i <= paths.len(),
            all == crate::text::views_of(paths@),
            toml@ == "typst.toml"@,
            src@ == "src"@,
            root_scan(all.take(i as int)) == Some((
                match root {
                    Some(v) => Some(v@),
                    None => None::<Seq<char>>,
                },
                manifest,
            )),
        decreases paths.len() - i,
    {
        let p = chars_of(paths[i].as_str());
        assert(all.take(i + 1).drop_last() =~= all.take(i as int));
        assert(all.take(i + 1).last() == p@);
        let mut k: usize = 0;
        while k < p.len() && p[k] != '/'
            invariant
                k <= p.len(),
                forall|j: int| 0 <= j < k ==> p@[j] != '/',
            decreases p.len() - k,
        {
            k += 1;
        }
        proof {
            crate::graph::lemma_index_of(p@, '/');
        }
        if k == p.len() {
            assert(crate::graph::index_of(p@, '/') < 0);
            proof {
                lemma_root_scan_none_extends(all, i as int + 1);
            }
            return None;
        }
        assert(crate::graph::index_of(p@, '/') == k as int);
        let head = crate::text::copy_range(&p, 0, k);
        let tail = crate::text::copy_range(&p, k + 1, p.len());
        assert(head@ =~= p@.take(k as int));
        assert(tail@ =~= p@.skip(k + 1));
        if head.len() == 0 || tail.len() == 0 {
            proof {
                lemma_root_scan_none_extends(all, i as int + 1);
            }
            return None;
        }
        let is_toml = crate::text::chars_eq(&tail, &toml);
        match &root {
            Some(r) => {
                if !crate::text::chars_eq(r, &head) {
                    proof {
                        lemma_root_scan_none_extends(all, i as int + 1);
                    }
                    return None;
                }
            },
            None => {
                root = Some(head);
            },
        }
        manifest = manifest || is_toml;
        i += 1;
    }
    assert(all.take(paths.len() as int) =~= all);
    if !manifest {
        return None;
    }
    match root {
        Some(r) => {
            if crate::text::chars_eq(&r, &src) {
                None
            } else {
                Some(string_of(&r))
            }
        },
        None => None,
    }
}

pub proof fn lemma_root_scan_none_extends(paths: Seq<Seq<char>>, k: int)
    requires
        0 <= k <= paths.len(),
        root_scan(paths.take(k)) is None,
    ensures
        root_scan(paths) is None,
    decreases paths.len() - k,
{
    if k < paths.len() {
        assert(paths.drop_last().take(k) =~= paths.take(k));
        lemma_root_scan_none_extends(paths.drop_last(), k);
    } else {
        assert(paths.take(k) =~= paths);
    }
}

/// The regular members of a package archive with a relative path, in order.
pub open spec fn raw_members(entries: Seq<(bool, Seq<char>, Seq<u8>)>) -> Seq<(Seq<char>, Seq<u8>)>
    decreases entries.len(),
{
    if entries.len() == 0 {
        Seq::empty()
    } else {
        let prev = raw_members(entries.drop_last());
        let (is_file, path, data) = entries.last();
        if !is_file {
            prev
        } else {
            match spec_normalize(path) {
                Some(rel) => prev.push((rel, data)),
                None => prev,
            }
        }
    }
}

/// `s` without leading slashes.
pub open spec fn trim_leading_slashes(s: Seq<char>) -> Seq<char>
    decreases s.len(),
{
    if s.len() > 0 && s[0] == '/' {
        trim_leading_slashes(s.drop_first())
    } else {
        s
    }
}

/// A member path inside the package: the archive's wrapping directory removed.
pub open spec fn inside_package(path: Seq<char>, root: Option<Seq<char>>) -> Seq<char> {
    match root {
        Some(seg) => trim_leading_slashes(
            if crate::text::starts_with(path, seg) {
                path.skip(seg.len() as int)
            } else {
                path
            },
        ),
        None => path,
    }
}

/// A package file as (namespace, name, version, path, bytes, text when UTF-8).
pub type PackageFileView = (Seq<char>, Seq<char>, Seq<char>, Seq<char>, Seq<u8>, Option<Seq<char>>);

pub open spec fn package_file_view(f: TypstPackageFile) -> PackageFileView {
    (
        f.namespace@,
        f.name@,
        f.version@,
        f.path@,
        f.bytes@,
        match f.source {
            Some(s) => Some(s@),
            None => None,
        },
    )
}

pub open spec fn package_file_views(v: Seq<TypstPackageFile>) -> Seq<PackageFileView> {
    Seq::new(v.len(), |i: int| package_file_view(v[i]))
}

/// The package files made from the raw members, in order; empty paths are left out.
pub open spec fn package_files_of(
    raw: Seq<(Seq<char>, Seq<u8>)>,
    root: Option<Seq<char>>,
    namespace: Seq<char>,
    name: Seq<char>,
    version: Seq<char>,
) -> Seq<PackageFileView>
    decreases raw.len(),
{
    if raw.len() == 0 {
        Seq::empty()
    } else {
        let prev = package_files_of(raw.drop_last(), root, namespace, name, version);
        let (path, data) = raw.last();
        let rel = inside_package(path, root);
        if rel.len() == 0 {
            prev
        } else {
            prev.push(
                (
                    namespace,
                    name,
                    version,
                    rel,
                    data,
                    if valid_utf8(data) {
                        Some(decode_utf8(data))
                    } else {
                        None
                    },
                ),
            )
        }
    }
}

pub open spec fn member_paths(raw: Seq<(Seq<char>, Seq<u8>)>) -> Seq<Seq<char>> {
    Seq::new(raw.len(), |i: int| raw[i].0)
}

/// The files of a downloaded package archive.
pub open spec fn spec_package_files(
    bytes: Seq<u8>,
    namespace: Seq<char>,
    name: Seq<char>,
    version: Seq<char>,
) -> Result<Seq<PackageFileView>, Seq<char>> {
    match tar_gz_entries(bytes) {
        Err(e) => Err(e),
        Ok(entries) => Ok(entry_package_files(entries, namespace, name, version)),
    }
}

/// The package files made from an archive's members.
pub open spec fn entry_package_files(
    entries: Seq<(bool, Seq<char>, Seq<u8>)>,
    namespace: Seq<char>,
    name: Seq<char>,
    version: Seq<char>,
) -> Seq<PackageFileView> {
    let raw = raw_members(entries);
    package_files_of(raw, spec_archive_root(member_paths(raw)), namespace, name, version)
}

pub open spec fn package_files_result(r: Result<Vec<TypstPackageFile>, String>) -> Result<
    Seq<PackageFileView>,
    Seq<char>,
> {
    match r {
        Ok(v) => Ok(package_file_views(v@)),
        Err(e) => Err(e@),
    }
}

fn copy_bytes(v: &Vec<u8>) -> (r: Vec<u8>)
    ensures
        r@ == v@,
{
    let mut out: Vec<u8> = Vec::new();
    crate::digest::push_bytes(&mut out, v.as_slice());
    assert(out@ =~= v@);
    out
}

fn inside_package_exec(path: &String, root: &Option<String>) -> (r: String)
    ensures
        r@ == inside_package(path@, crate::paths::opt_view(*root)),
{
    match root {
        None => path.clone(),
        Some(seg) => {
            let p = chars_of(path.as_str());
            let sc = chars_of(seg.as_str());
            let mut start: usize = if crate::text::has_prefix(&p, &sc) {
                sc.len()
            } else {
                0
            };
            let ghost after = if crate::text::starts_with(p@, sc@) {
                p@.skip(sc@.len() as int)
            } else {
                p@
            };
            assert(p@.skip(start as int) =~= after);
            while start < p.len() && p[start] == '/'
                invariant
                    start <= p.len(),
                    trim_leading_slashes(after) == trim_leading_slashes(p@.skip(start as int)),
                decreases p.len() - start,
            {
                assert(p@.skip(start as int).drop_first() =~= p@.skip(start + 1));
                start += 1;
            }
            let rest = crate::text::copy_range(&p, start, p.len());
            assert(rest@ =~= p@.skip(start as int));
            string_of(&rest)
        },
    }
}

/// The files of a downloaded package archive, each tagged with the package.
pub fn typst_package_files_from_tar_gz(
    bytes: &[u8],
    namespace: &str,
    name: &str,
    version: &str,
) -> (r: Result<Vec<TypstPackageFile>, String>)
    ensures
        package_files_result(r) == spec_package_files(bytes@, namespace@, name@, version@),
{
    match read_tar_gz(bytes) {
        Ok(entries) => Ok(package_files_from_entries(&entries, namespace, name, version)),
        Err(e) => Err(e),
    }
}

/// The files of a package archive's members, each tagged with the package: the regular
/// files whose paths normalize, placed inside the package (without the archive's
/// top-level directory when it has one), with their bytes and, when UTF-8, their text.
pub fn package_files_from_entries(
    entries: &Vec<TarEntry>,
    namespace: &str,
    name: &str,
    version: &str,
) -> (r: Vec<TypstPackageFile>)
    ensures
        package_file_views(r@) == entry_package_files(entry_views(entries@), namespace@, name@, version@),
{
    let ghost ev = entry_views(entries@);
    let mut paths: Vec<String> = Vec::new();
    let mut datas: Vec<Vec<u8>> = Vec::new();
    let mut i: usize = 0;
    assert(ev.take(0) =~= Seq::<(bool, Seq<char>, Seq<u8>)>::empty());
    while i < entries.len()
        invariant
            i <= entries.len(),
            ev == entry_views(entries@),
            paths.len() == datas.len(),
            raw_members(ev.take(i as int)) == Seq::new(
                paths.len() as nat,
                |k: int| (paths@[k]@, datas@[k]@),
            ),
        decreases entries.len() - i,
    {
        assert(ev.take(i + 1).drop_last() =~= ev.take(i as int));
        let e = &entries[i];
        assert(ev.take(i + 1).last() == (e.is_file, e.path@, e.data@));
        if e.is_file {
            match normalize_relative_path(e.path.as_str()) {
                Some(rel) => {
                    let ghost before = raw_members(ev.take(i as int));
                    paths.push(rel);
                    datas.push(copy_bytes(&e.data));
                    assert(raw_members(ev.take(i + 1)) =~= Seq::new(
                        paths.len() as nat,
                        |k: int| (paths@[k]@, datas@[k]@),
                    ));
                },
                None => {},
            }
        }
        i += 1;
    }
    assert(ev.take(entries.len() as int) =~= ev);
    let ghost raw = raw_members(ev);
    assert(member_paths(raw) =~= crate::text::views_of(paths@));
    let root = package_archive_root_segment(paths.as_slice());
    let ghost rootv = crate::paths::opt_view(root);
    let mut files: Vec<TypstPackageFile> = Vec::new();
    let mut j: usize = 0;
    assert(raw.take(0) =~= Seq::<(Seq<char>, Seq<u8>)>::empty());
    assert(package_file_views(files@) =~= Seq::<PackageFileView>::empty());
    while j < paths.len()
        invariant
            j <= paths.len(),
            paths.len() == datas.len(),
            raw == Seq::new(paths.len() as nat, |k: int| (paths@[k]@, datas@[k]@)),
            rootv == crate::paths::opt_view(root),
            package_file_views(files@) == package_files_of(
                raw.take(j as int),
                rootv,
                namespace@,
                name@,
                version@,
            ),
        decreases paths.len() - j,
    {
        assert(raw.take(j + 1).drop_last() =~= raw.take(j as int));
        assert(raw.take(j + 1).last() == (paths@[j as int]@, datas@[j as int]@));
        let rel = inside_package_exec(&paths[j], &root);
        if rel.unicode_len() > 0 {
            let data = copy_bytes(&datas[j]);
            let text_bytes = copy_bytes(&datas[j]);
            let source = utf8_to_string(text_bytes);
            let ghost before = package_file_views(files@);
            files.push(
                TypstPackageFile {
                    namespace: namespace.to_string(),
                    name: name.to_string(),
                    version: version.to_string(),
                    path: rel,
                    bytes: data,
                    source,
                },
            );
            assert(package_file_views(files@) =~= before.push(package_file_view(files@.last())));
        }
        j += 1;
    }
    assert(raw.take(paths.len() as int) =~= raw);
    files
}

} // verus!

//! Virtual environments: where the current directory holds one, `python` and
//! `pip` mean the ones in it.

use crate::path::{join, joined};
use crate::text::same_text;
use vstd::prelude::*;

verus! {

/// What the prompt shows where there is a virtual environment.
pub const VENV_PREFIX: &'static str = " venv";

/// Where the interpreter is in a virtual environment, on Windows and elsewhere.
pub open spec fn interpreters() -> Seq<Seq<char>> {
    seq!["Scripts/python.exe"@, "Scripts/python3.exe"@, "bin/python"@, "bin/python3"@]
}

/// Where `pip` is in a virtual environment, on Windows and elsewhere.
pub open spec fn pips() -> Seq<Seq<char>> {
    seq!["Scripts/pip.exe"@, "Scripts/pip3.exe"@, "bin/pip"@, "bin/pip3"@]
}

/// The first of `rels` from `i` on that is a file under `root`.
pub open spec fn first_file(
    root: Seq<char>,
    rels: Seq<Seq<char>>,
    files: Seq<Seq<char>>,
    i: int,
    windows: bool,
) -> Option<Seq<char>>
    decreases rels.len() - i,
{
    if i < 0 || i >= rels.len() {
        None
    } else if files.contains(joined(root, rels[i], windows)) {
        Some(joined(root, rels[i], windows))
    } else {
        first_file(root, rels, files, i + 1, windows)
    }
}

/// The executable in a directory that is a virtual environment. The mark of one
/// is its configuration file.
pub open spec fn in_venv(
    root: Seq<char>,
    rels: Seq<Seq<char>>,
    files: Seq<Seq<char>>,
    windows: bool,
) -> Option<
    Seq<char>,
> {
    if files.contains(joined(root, "pyvenv.cfg"@, windows)) {
        first_file(root, rels, files, 0, windows)
    } else {
        None
    }
}

/// The executable of the first virtual environment in `dir` that has one; `.venv`
/// comes before `venv`.
/// `files` are the paths that exist as files.
pub open spec fn venv_file(
    dir: Seq<char>,
    rels: Seq<Seq<char>>,
    files: Seq<Seq<char>>,
    windows: bool,
) -> Option<
    Seq<char>,
> {
    match in_venv(joined(dir, ".venv"@, windows), rels, files, windows) {
        Some(p) => Some(p),
        None => in_venv(joined(dir, "venv"@, windows), rels, files, windows),
    }
}

fn listed(files: &[String], path: &str) -> (r: bool)
    ensures
        r == files.deep_view().contains(path@),
{
    let ghost fs = files.deep_view();
    let mut i: usize = 0;
    while i < files.len()
        invariant
            i <= files@.len(),
            fs == files.deep_view(),
            forall|j: int| 0 <= j < i ==> #[trigger] fs[j] != path@,
        decreases files@.len() - i,
    {
        if same_text(&files[i], path) {
            assert(fs[i as int] == path@);
            return true;
        }
        i = i + 1;
    }
    false
}

fn executable_in_venv(
    root: &str,
    rels: &Vec<&'static str>,
    files: &[String],
    windows: bool,
) -> (r: Option<String>)
    ensures
        r.deep_view() == in_venv(root@, rels.deep_view(), files.deep_view(), windows),
{
    if !listed(files, &join(root, "pyvenv.cfg", windows)) {
        return None;
    }
    let ghost names = rels.deep_view();
    let mut i: usize = 0;
    while i < rels.len()
        invariant
            i <= rels@.len(),
            names == rels.deep_view(),
            first_file(root@, names, files.deep_view(), 0, windows) == first_file(
                root@,
                names,
                files.deep_view(),
                i as int,
                windows,
            ),
            files.deep_view().contains(joined(root@, "pyvenv.cfg"@, windows)),
        decreases rels@.len() - i,
    {
        let path = join(root, rels[i], windows);
        assert(names[i as int] == rels@[i as int]@);
        if listed(files, &path) {
            return Some(path);
        }
        i = i + 1;
    }
    None
}

fn venv_executable(
    dir: &str,
    rels: &Vec<&'static str>,
    files: &[String],
    windows: bool,
) -> (r: Option<String>)
    ensures
        r.deep_view() == venv_file(dir@, rels.deep_view(), files.deep_view(), windows),
{
    match executable_in_venv(&join(dir, ".venv", windows), rels, files, windows) {
        Some(p) => Some(p),
        None => executable_in_venv(&join(dir, "venv", windows), rels, files, windows),
    }
}

fn interpreter_names() -> (r: Vec<&'static str>)
    ensures
        r.deep_view() == interpreters(),
{
    let r: Vec<&'static str> = vec![
        "Scripts/python.exe",
        "Scripts/python3.exe",
        "bin/python",
        "bin/python3",
    ];
    assert(r.deep_view() =~= interpreters());
    r
}

fn pip_names() -> (r: Vec<&'static str>)
    ensures
        r.deep_view() == pips(),
{
    let r: Vec<&'static str> = vec![
        "Scripts/pip.exe",
        "Scripts/pip3.exe",
        "bin/pip",
        "bin/pip3",
    ];
    assert(r.deep_view() =~= pips());
    r
}

/// The interpreter of the virtual environment in `dir`, if there is one.
/// `files` are those of [`venv_probes`] that exist as files.
pub fn venv_python(dir: &str, files: &[String], windows: bool) -> (r: Option<String>)
    ensures
        r.deep_view() == venv_file(dir@, interpreters(), files.deep_view(), windows),
{
    venv_executable(dir, &interpreter_names(), files, windows)
}

/// The `pip` of the virtual environment in `dir`, if there is one. `files` are
/// those of [`venv_probes`] that exist as files.
pub fn venv_pip(dir: &str, files: &[String], windows: bool) -> (r: Option<String>)
    ensures
        r.deep_view() == venv_file(dir@, pips(), files.deep_view(), windows),
{
    venv_executable(dir, &pip_names(), files, windows)
}

/// The marker of the prompt for a virtual environment.
pub open spec fn venv_marker(dir: Seq<char>, files: Seq<Seq<char>>, windows: bool) -> Seq<char> {
    if venv_file(dir, interpreters(), files, windows) is Some {
        VENV_PREFIX@
    } else {
        Seq::empty()
    }
}

/// See [`venv_marker`].
pub fn venv_indicator(dir: &str, files: &[String], windows: bool) -> (r: String)
    ensures
        r@ == venv_marker(dir@, files.deep_view(), windows),
{
    match venv_python(dir, files, windows) {
        Some(_) => VENV_PREFIX.to_owned(),
        None => String::new(),
    }
}

/// What [`venv_python`] and [`venv_pip`] look for in `dir`.
pub open spec fn probes(dir: Seq<char>, windows: bool) -> Seq<Seq<char>> {
    root_probes(
        joined(dir, ".venv"@, windows),
        windows,
    ) + root_probes(joined(dir, "venv"@, windows), windows)
}

pub open spec fn root_probes(root: Seq<char>, windows: bool) -> Seq<Seq<char>> {
    (seq!["pyvenv.cfg"@] + interpreters() + pips()).map_values(|rel: Seq<char>| joined(
        root,
        rel,
        windows,
    ))
}

fn push_probes(out: &mut Vec<String>, root: &str, rels: &Vec<&'static str>, windows: bool)
    ensures
        final(out).deep_view() == old(out).deep_view() + rels.deep_view().map_values(
            |rel: Seq<char>| joined(root@, rel, windows),
        ),
{
    let ghost start = out.deep_view();
    let ghost all = rels.deep_view().map_values(|rel: Seq<char>| joined(root@, rel, windows));
    let mut i: usize = 0;
    assert(start + all.take(0) =~= start);
    while i < rels.len()
        invariant
            i <= rels@.len(),
            all == rels.deep_view().map_values(|rel: Seq<char>| joined(root@, rel, windows)),
            out.deep_view() == start + all.take(i as int),
        decreases rels@.len() - i,
    {
        let ghost before = out.deep_view();
        out.push(join(root, rels[i], windows));
        assert(out.deep_view() =~= before.push(all[i as int]));
        assert(before.push(all[i as int]) =~= start + all.take(i + 1));
        i = i + 1;
    }
    assert(all.take(i as int) =~= all);
}

fn push_root(out: &mut Vec<String>, root: &str, windows: bool)
    ensures
        final(out).deep_view() == old(out).deep_view() + root_probes(root@, windows),
{
    let ghost start = out.deep_view();
    let cfg: Vec<&'static str> = vec!["pyvenv.cfg"];
    assert(cfg.deep_view() =~= seq!["pyvenv.cfg"@]);
    push_probes(out, root, &cfg, windows);
    push_probes(out, root, &interpreter_names(), windows);
    push_probes(out, root, &pip_names(), windows);
    assert(out.deep_view() =~= start + root_probes(root@, windows));
}

/// The paths that decide whether `dir` holds a virtual environment, and what is
/// in it. A caller finds out which of them are files.
pub fn venv_probes(dir: &str, windows: bool) -> (r: Vec<String>)
    ensures
        r.deep_view() == probes(dir@, windows),
{
    let mut out: Vec<String> = Vec::new();
    assert(out.deep_view() =~= Seq::empty());
    push_root(&mut out, &join(dir, ".venv", windows), windows);
    push_root(&mut out, &join(dir, "venv", windows), windows);
    assert(out.deep_view() =~= probes(dir@, windows));
    out
}

/// What a caller finds out about other paths makes no difference: only the
/// files among the probes count.
pub proof fn probes_decide(
    dir: Seq<char>,
    files: Seq<Seq<char>>,
    more: Seq<Seq<char>>,
    windows: bool,
)
    requires
        forall|p: Seq<char>| probes(
            dir,
            windows,
        ).contains(p) ==> files.contains(p) == more.contains(p),
    ensures
        venv_file(
            dir,
            interpreters(),
            files,
            windows,
        ) == venv_file(dir, interpreters(), more, windows),
        venv_file(dir, pips(), files, windows) == venv_file(dir, pips(), more, windows),
{
    let a = root_probes(joined(dir, ".venv"@, windows), windows);
    let b = root_probes(joined(dir, "venv"@, windows), windows);
    assert((a + b).subrange(0, a.len() as int) =~= a);
    assert((a + b).subrange(a.len() as int, (a.len() + b.len()) as int) =~= b);
    lemma_root_decides(dir, joined(dir, ".venv"@, windows), files, more, 0, windows);
    lemma_root_decides(dir, joined(dir, "venv"@, windows), files, more, a.len() as int, windows);
}

proof fn lemma_root_decides(
    dir: Seq<char>,
    root: Seq<char>,
    files: Seq<Seq<char>>,
    more: Seq<Seq<char>>,
    at: int,
    windows: bool,
)
    requires
        forall|p: Seq<char>| probes(
            dir,
            windows,
        ).contains(p) ==> files.contains(p) == more.contains(p),
        0 <= at,
        at + root_probes(root, windows).len() <= probes(dir, windows).len(),
        probes(dir, windows).subrange(
            at,
            at + root_probes(root, windows).len(),
        ) == root_probes(root, windows),
    ensures
        in_venv(
            root,
            interpreters(),
            files,
            windows,
        ) == in_venv(root, interpreters(), more, windows),
        in_venv(root, pips(), files, windows) == in_venv(root, pips(), more, windows),
{
    let all = seq!["pyvenv.cfg"@] + interpreters() + pips();
    let ps = root_probes(root, windows);
    assert forall|i: int| 0 <= i < all.len() implies files.contains(
        #[trigger] joined(root, all[i], windows),
    ) == more.contains(joined(root, all[i], windows)) by {
        assert(ps[i] == joined(root, all[i], windows));
        assert(probes(dir, windows)[at + i] == ps[i]) by {
            assert(
                probes(dir, windows).subrange(at, at + ps.len())[i] == probes(dir, windows)[at + i]
            );
        }
        assert(probes(dir, windows).contains(joined(root, all[i], windows)));
    }
    assert(all[0] == "pyvenv.cfg"@);
    lemma_first_decides(root, interpreters(), files, more, all, 1, 0, windows);
    lemma_first_decides(root, pips(), files, more, all, 5, 0, windows);
}

proof fn lemma_first_decides(
    root: Seq<char>,
    rels: Seq<Seq<char>>,
    files: Seq<Seq<char>>,
    more: Seq<Seq<char>>,
    all: Seq<Seq<char>>,
    at: int,
    i: int,
    windows: bool,
)
    requires
        0 <= at,
        at + rels.len() <= all.len(),
        0 <= i,
        forall|j: int| 0 <= j < rels.len() ==> #[trigger] rels[j] == all[at + j],
        forall|j: int|
            0 <= j < all.len() ==> files.contains(
                #[trigger] joined(root, all[j], windows),
            ) == more.contains(
                joined(root, all[j], windows),
            ),
    ensures
        first_file(root, rels, files, i, windows) == first_file(root, rels, more, i, windows),
    decreases rels.len() - i,
{
    if i < rels.len() {
        assert(rels[i] == all[at + i]);
        assert(files.contains(joined(root, all[at + i], windows)) == more.contains(
            joined(root, all[at + i], windows),
        ));
        lemma_first_decides(root, rels, files, more, all, at, i + 1, windows);
    }
}

} // verus!

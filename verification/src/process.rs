//! Child processes: the files that a command word can name, and what a process
//! leaves behind.

use crate::path::{join, joined, separator, separator_class};
use crate::text::{chars_of, find, index_of};
use vstd::prelude::*;

verus! {

/// A child process that ran: whether it succeeded, and what it wrote.
#[derive(Debug)]
pub struct ProcessRun {
    pub success: bool,
    pub stdout: Vec<u8>,
    pub stderr: Vec<u8>,
}

/// What a command word can leave out at the end of a file's name.
pub open spec fn extensions(windows: bool) -> Seq<Seq<char>> {
    if windows {
        seq![""@, ".exe"@, ".cmd"@, ".bat"@, ".com"@, ".ps1"@]
    } else {
        seq![""@]
    }
}

/// The files in `dir` that a word without separators can name.
pub open spec fn runnable_in(word: Seq<char>, dir: Seq<char>, windows: bool) -> Seq<Seq<char>> {
    extensions(windows).map_values(|ext: Seq<char>| joined(dir, word + ext, windows))
}

/// The files that a word without separators can name in any of the directories.
pub open spec fn runnable_below(
    word: Seq<char>,
    dirs: Seq<Seq<char>>,
    windows: bool,
) -> Seq<Seq<char>>
    decreases dirs.len(),
{
    if dirs.len() == 0 {
        Seq::empty()
    } else {
        runnable_below(word, dirs.drop_last(), windows) + runnable_in(word, dirs.last(), windows)
    }
}

/// The files that a command word can name. One with a separator in it is itself
/// the path of the file.
pub open spec fn runnable(word: Seq<char>, dirs: Seq<Seq<char>>, windows: bool) -> Seq<Seq<char>> {
    if index_of(word, separator(windows)) is Some {
        seq![word]
    } else {
        runnable_below(word, dirs, windows)
    }
}

fn extension_names(windows: bool) -> (r: Vec<&'static str>)
    ensures
        r.deep_view() == extensions(windows),
{
    let r: Vec<&'static str> = if windows {
        vec!["", ".exe", ".cmd", ".bat", ".com", ".ps1"]
    } else {
        vec![""]
    };
    assert(r.deep_view() =~= extensions(windows));
    r
}

fn push_runnable(out: &mut Vec<String>, word: &str, dir: &str, windows: bool)
    ensures
        final(out).deep_view() == old(out).deep_view() + runnable_in(word@, dir@, windows),
{
    let ghost start = out.deep_view();
    let ghost all = runnable_in(word@, dir@, windows);
    let exts = extension_names(windows);
    let mut i: usize = 0;
    assert(exts.deep_view().len() == exts@.len());
    assert(start + all.take(0) =~= start);
    while i < exts.len()
        invariant
            i <= exts@.len(),
            exts@.len() == all.len(),
            exts.deep_view() == extensions(windows),
            all == runnable_in(word@, dir@, windows),
            out.deep_view() == start + all.take(i as int),
        decreases exts@.len() - i,
    {
        let ghost before = out.deep_view();
        assert(exts.deep_view()[i as int] == exts@[i as int]@);
        out.push(join(dir, &word.to_owned().concat(exts[i]), windows));
        assert(out.deep_view() =~= before.push(all[i as int]));
        assert(before.push(all[i as int]) =~= start + all.take(i + 1));
        i = i + 1;
    }
    assert(all.take(i as int) =~= all);
}

/// The files that a command word can name, in the order in which they are looked
/// for; `dirs` are the directories that are searched. A caller finds out which of
/// them can be run.
pub fn runnable_files(word: &str, dirs: &[String], windows: bool) -> (r: Vec<String>)
    ensures
        r.deep_view() == runnable(word@, dirs.deep_view(), windows),
{
    let mut out: Vec<String> = Vec::new();
    assert(out.deep_view() =~= Seq::empty());
    if find(&chars_of(word), separator_class(windows)).is_some() {
        out.push(word.to_owned());
        assert(out.deep_view() =~= seq![word@]);
        return out;
    }
    let ghost all = dirs.deep_view();
    let mut i: usize = 0;
    assert(all.len() == dirs@.len());
    assert(all.take(0).len() == 0);
    while i < dirs.len()
        invariant
            i <= dirs@.len(),
            all == dirs.deep_view(),
            out.deep_view() == runnable_below(word@, all.take(i as int), windows),
        decreases dirs@.len() - i,
    {
        push_runnable(&mut out, word, &dirs[i], windows);
        proof {
            let s = all.take(i + 1);
            assert(s.drop_last() =~= all.take(i as int));
            assert(s.last() == dirs@[i as int]@);
        }
        i = i + 1;
    }
    assert(all.take(i as int) =~= all);
    out
}

} // verus!

//! What the extractor does with each archive entry, decided before anything
//! is written: skip it, create a directory, or write a file, always at a
//! path inside the extraction root.
use vstd::prelude::*;
use crate::entry_path::{
    is_absolute, join, keep_nonempty, lemma_split_nonempty, nonempty_parts, resolve, resolve_from, split_parts,
    split_path, strip_first, views,
};

verus! {

/// Why an archive could not be extracted.
#[derive(Debug, Clone, Copy, PartialEq, Eq, Structural)]
pub enum ExtractError {
    /// The archive could not be read as an archive.
    CorruptArchive,
    /// An entry would land outside the extraction root.
    UnsafePath,
}

/// What to do with one archive entry.
#[derive(Debug, PartialEq, Eq)]
pub enum EntryAction {
    /// Nothing is left of the entry once its leading component is removed.
    Skip,
    /// Create this directory, relative to the extraction root.
    CreateDir(String),
    /// Write the entry's bytes to this file, relative to the extraction root.
    WriteFile(String),
}

/// The entry's name denotes a directory.
pub open spec fn is_dir_entry(name: Seq<char>) -> bool {
    name.len() > 0 && name.last() == '/'
}

/// Where a remainder lands: nowhere to go (empty components) when nothing
/// is left, else its resolution when that lies strictly below the root,
/// and `None` when it climbs out or comes back to the root itself.
pub open spec fn target_of(rest: Seq<Seq<char>>) -> Option<Seq<Seq<char>>> {
    if rest.len() == 0 {
        Some(Seq::empty())
    } else {
        match resolve(rest) {
            Some(st) => if st.len() > 0 {
                Some(st)
            } else {
                None
            },
            None => None,
        }
    }
}

/// Where an entry lands: its components below the extraction root (none
/// when nothing is left after stripping), or `None` where the entry is
/// absolute or its remainder does not resolve strictly below the root.
pub open spec fn entry_target(name: Seq<char>) -> Option<Seq<Seq<char>>> {
    if is_absolute(name) {
        None
    } else {
        target_of(strip_first(name))
    }
}

/// The entry is extracted safely.
pub open spec fn entry_safe(name: Seq<char>) -> bool {
    entry_target(name) is Some
}

/// `a` is the action that extraction takes for the entry named `name`.
pub open spec fn planned(name: Seq<char>, a: EntryAction) -> bool {
    match entry_target(name) {
        None => false,
        Some(st) => if st.len() == 0 {
            a is Skip
        } else if is_dir_entry(name) {
            a matches EntryAction::CreateDir(p) && p@ == join(st)
        } else {
            a matches EntryAction::WriteFile(p) && p@ == join(st)
        },
    }
}

/// Decides what to do with the entry named `name`.
pub fn plan_entry(name: &str) -> (r: Result<EntryAction, ExtractError>)
    ensures
        match r {
            Ok(a) => planned(name@, a),
            Err(e) => !entry_safe(name@) && e == ExtractError::UnsafePath,
        },
        r is Ok <==> entry_safe(name@),
{
    let n = name.unicode_len();
    if n > 0 && name.get_char(0) == '/' {
        return Err(ExtractError::UnsafePath);
    }
    let pieces = split_parts(name);
    let ne = keep_nonempty(&pieces);
    let from: usize = if ne.len() == 0 { 0 } else { 1 };
    proof {
        if ne.len() == 0 {
            assert(views(ne@).subrange(0, 0) == views(ne@));
        } else {
            assert(views(ne@).subrange(1, ne.len() as int) == views(ne@).drop_first());
        }
    }
    if ne.len() <= from {
        return Ok(EntryAction::Skip);
    }
    match resolve_from(&ne, from) {
        None => Err(ExtractError::UnsafePath),
        Some(st) => {
            if st.len() == 0 {
                Err(ExtractError::UnsafePath)
            } else {
                assert(views(st@).subrange(0, st.len() as int) == views(st@));
                let path = crate::entry_path::join_from(&st, 0);
                if n > 0 && name.get_char(n - 1) == '/' {
                    Ok(EntryAction::CreateDir(path))
                } else {
                    Ok(EntryAction::WriteFile(path))
                }
            }
        },
    }
}

/// Plans every entry of an archive before anything is written: either all
/// entries are safe and each gets its action, in order, or the archive is
/// refused as a whole, so that nothing is ever written outside the root.
pub fn plan_extraction(names: &Vec<String>) -> (r: Result<Vec<EntryAction>, ExtractError>)
    ensures
        match r {
            Ok(v) => v.len() == names.len() && forall|i: int|
                0 <= i < names.len() ==> planned(#[trigger] names@[i]@, v@[i]),
            Err(e) => e == ExtractError::UnsafePath && exists|i: int|
                0 <= i < names.len() && !entry_safe(#[trigger] names@[i]@),
        },
        r is Ok <==> forall|i: int| 0 <= i < names.len() ==> entry_safe(#[trigger] names@[i]@),
{
    let mut actions: Vec<EntryAction> = Vec::new();
    let mut i: usize = 0;
    while i < names.len()
        invariant
            i <= names.len(),
            actions.len() == i,
            forall|j: int| 0 <= j < i ==> planned(#[trigger] names@[j]@, actions@[j]),
            forall|j: int| 0 <= j < i ==> entry_safe(#[trigger] names@[j]@),
        decreases names.len() - i,
    {
        match plan_entry(names[i].as_str()) {
            Ok(a) => {
                actions.push(a);
            },
            Err(e) => {
                assert(!entry_safe(names@[i as int]@));
                return Err(e);
            },
        }
        i = i + 1;
    }
    Ok(actions)
}

/// A component that names an entry of its directory: not empty, without a
/// separator, not `.` and not `..`.
pub open spec fn plain_component(c: Seq<char>) -> bool {
    piece_ok(c) && c != "."@ && c != ".."@
}

/// No character of the piece is a separator.
pub open spec fn no_separator(c: Seq<char>) -> bool {
    forall|j: int| 0 <= j < c.len() ==> c[j] != '/'
}

/// A piece that names one path component: not empty, no separator.
pub open spec fn piece_ok(c: Seq<char>) -> bool {
    c.len() > 0 && no_separator(c)
}

proof fn lemma_split_concat(a: Seq<char>, b: Seq<char>)
    ensures
        split_path(a + "/"@ + b) == split_path(a) + split_path(b),
    decreases b.len(),
{
    reveal_strlit("/");
    lemma_split_nonempty(a);
    if b.len() == 0 {
        assert(a + "/"@ + b == a.push('/'));
        assert((a.push('/')).drop_last() == a);
        assert(split_path(b) == seq![Seq::<char>::empty()]);
    } else {
        let s = a + "/"@ + b;
        assert(s.drop_last() == a + "/"@ + b.drop_last());
        assert(s.last() == b.last());
        lemma_split_concat(a, b.drop_last());
        lemma_split_nonempty(b.drop_last());
        let x = split_path(a);
        let y = split_path(b.drop_last());
        if b.last() == '/' {
            assert((x + y).push(Seq::<char>::empty()) == x + y.push(Seq::<char>::empty()));
        } else {
            assert((x + y).update(x.len() + y.len() - 1, (x + y).last().push(b.last())) == x + y.update(
                y.len() - 1,
                y.last().push(b.last()),
            ));
        }
    }
}

proof fn lemma_split_single(a: Seq<char>)
    requires
        forall|i: int| 0 <= i < a.len() ==> a[i] != '/',
    ensures
        split_path(a) == seq![a],
    decreases a.len(),
{
    if a.len() > 0 {
        lemma_split_single(a.drop_last());
        assert(a.last() == a[a.len() - 1]);
        assert(a.drop_last().push(a.last()) =~= a);
        assert(seq![a.drop_last()].last() == a.drop_last());
        assert(seq![a.drop_last()].update(0, a.drop_last().push(a.last())) =~= seq![a]);
    } else {
        assert(a =~= Seq::<char>::empty());
    }
}

proof fn lemma_nonempty_concat(x: Seq<Seq<char>>, y: Seq<Seq<char>>)
    ensures
        nonempty_parts(x + y) == nonempty_parts(x) + nonempty_parts(y),
    decreases y.len(),
{
    if y.len() == 0 {
        assert(x + y == x);
    } else {
        assert((x + y).drop_last() == x + y.drop_last());
        assert((x + y).last() == y.last());
        lemma_nonempty_concat(x, y.drop_last());
        assert((nonempty_parts(x) + nonempty_parts(y.drop_last())).push(y.last()) == nonempty_parts(x)
            + nonempty_parts(y.drop_last()).push(y.last()));
    }
}

/// An archive's top-level folder `top` is stripped: the entry `top/rest`
/// lands where the relative path `rest` alone would, below the extraction
/// root.
pub proof fn lemma_leading_component_stripped(top: Seq<char>, rest: Seq<char>)
    requires
        top.len() > 0,
        forall|i: int| 0 <= i < top.len() ==> top[i] != '/',
    ensures
        entry_target(top + "/"@ + rest) == target_of(nonempty_parts(split_path(rest))),
{
    let name = top + "/"@ + rest;
    assert(name[0] == top[0]);
    lemma_split_concat(top, rest);
    lemma_split_single(top);
    lemma_nonempty_concat(seq![top], split_path(rest));
    assert(seq![top].drop_last() == Seq::<Seq<char>>::empty());
    assert(seq![top].last() == top);
    assert(nonempty_parts(Seq::<Seq<char>>::empty()).push(top) =~= seq![top]);
    assert(nonempty_parts(seq![top]) == seq![top]);
    assert((seq![top] + nonempty_parts(split_path(rest))).drop_first() == nonempty_parts(
        split_path(rest),
    ));
}

/// The entry that is exactly the top-level folder is skipped, not refused.
pub proof fn lemma_top_folder_skipped(top: Seq<char>, a: EntryAction)
    requires
        top.len() > 0,
        forall|i: int| 0 <= i < top.len() ==> top[i] != '/',
    ensures
        entry_safe(top + "/"@),
        planned(top + "/"@, a) <==> a is Skip,
{
    lemma_leading_component_stripped(top, Seq::empty());
    assert(top + "/"@ == top + "/"@ + Seq::<char>::empty());
    assert(split_path(Seq::<char>::empty()) == seq![Seq::<char>::empty()]);
    assert(seq![Seq::<char>::empty()].drop_last() =~= Seq::<Seq<char>>::empty());
    assert(seq![Seq::<char>::empty()].last() == Seq::<char>::empty());
    assert(nonempty_parts(seq![Seq::<char>::empty()]) == nonempty_parts(Seq::<Seq<char>>::empty()));
    assert(resolve(Seq::<Seq<char>>::empty()) == Some(Seq::<Seq<char>>::empty()));
}

proof fn lemma_resolve_plain(parts: Seq<Seq<char>>)
    requires
        forall|i: int| 0 <= i < parts.len() ==> piece_ok(#[trigger] parts[i]),
    ensures
        resolve(parts) matches Some(st) ==> forall|i: int|
            0 <= i < st.len() ==> plain_component(#[trigger] st[i]),
    decreases parts.len(),
{
    if parts.len() > 0 {
        let pre = parts.drop_last();
        assert forall|i: int| 0 <= i < pre.len() implies piece_ok(#[trigger] pre[i]) by {
            assert(pre[i] == parts[i]);
        }
        lemma_resolve_plain(pre);
        assert(parts.last() == parts[parts.len() - 1]);
        assert(piece_ok(parts[parts.len() - 1]));
        if let Some(st) = resolve(pre) {
            if parts.last() != "."@ && parts.last() != ".."@ {
                let st2 = st.push(parts.last());
                assert forall|i: int| 0 <= i < st2.len() implies plain_component(#[trigger] st2[i]) by {
                    if i < st.len() {
                        assert(st2[i] == st[i]);
                    }
                }
            } else if parts.last() == ".."@ && st.len() > 0 {
                let st2 = st.drop_last();
                assert forall|i: int| 0 <= i < st2.len() implies plain_component(#[trigger] st2[i]) by {
                    assert(st2[i] == st[i]);
                }
            }
        }
    }
}

proof fn lemma_split_no_separator(s: Seq<char>)
    ensures
        forall|i: int| 0 <= i < split_path(s).len() ==> no_separator(#[trigger] split_path(s)[i]),
    decreases s.len(),
{
    if s.len() > 0 {
        let p = split_path(s.drop_last());
        lemma_split_no_separator(s.drop_last());
        lemma_split_nonempty(s.drop_last());
        let r = split_path(s);
        if s.last() == '/' {
            assert forall|i: int| 0 <= i < r.len() implies no_separator(#[trigger] r[i]) by {
                if i < p.len() {
                    assert(r[i] == p[i]);
                }
            }
        } else {
            assert forall|i: int| 0 <= i < r.len() implies no_separator(#[trigger] r[i]) by {
                if i < p.len() - 1 {
                    assert(r[i] == p[i]);
                } else {
                    assert(no_separator(p[p.len() - 1]));
                    assert(r[i] == p.last().push(s.last()));
                    assert forall|j: int| 0 <= j < r[i].len() implies r[i][j] != '/' by {
                        if j < p.last().len() {
                            assert(r[i][j] == p.last()[j]);
                        }
                    }
                }
            }
        }
    }
}

proof fn lemma_nonempty_parts_ok(parts: Seq<Seq<char>>)
    requires
        forall|i: int| 0 <= i < parts.len() ==> no_separator(#[trigger] parts[i]),
    ensures
        forall|i: int|
            0 <= i < nonempty_parts(parts).len() ==> piece_ok(#[trigger] nonempty_parts(parts)[i]),
    decreases parts.len(),
{
    if parts.len() > 0 {
        let pre = parts.drop_last();
        assert forall|i: int| 0 <= i < pre.len() implies no_separator(#[trigger] pre[i]) by {
            assert(pre[i] == parts[i]);
        }
        lemma_nonempty_parts_ok(pre);
        assert(parts.last() == parts[parts.len() - 1]);
        if parts.last().len() > 0 {
            let r = nonempty_parts(pre).push(parts.last());
            assert forall|i: int| 0 <= i < r.len() implies piece_ok(#[trigger] r[i]) by {
                if i < nonempty_parts(pre).len() {
                    assert(r[i] == nonempty_parts(pre)[i]);
                }
            }
        }
    }
}

/// A safe entry lands below the extraction root: each component of its
/// target names an entry of the directory before it (none is empty, holds a
/// separator, or is `.` or `..`), so the joined target lies exactly as many
/// levels below the root as it has components; an absolute path is never
/// safe.
pub proof fn lemma_target_inside_root(name: Seq<char>)
    ensures
        entry_target(name) matches Some(st) ==> forall|i: int|
            0 <= i < st.len() ==> plain_component(#[trigger] st[i]),
        is_absolute(name) ==> !entry_safe(name),
{
    let ne = nonempty_parts(split_path(name));
    lemma_split_no_separator(name);
    lemma_nonempty_parts_ok(split_path(name));
    let s = strip_first(name);
    assert forall|i: int| 0 <= i < s.len() implies piece_ok(#[trigger] s[i]) by {
        if ne.len() > 0 && !is_absolute(name) {
            assert(s[i] == ne[i + 1]);
        }
    }
    lemma_resolve_plain(s);
}

} // verus!

//! Paths of archive entries: splitting on `/`, stripping the archive's
//! top-level folder, and resolving `.` and `..` without ever leaving the
//! extraction root.
use vstd::prelude::*;

verus! {

/// The character views of a list of strings.
pub open spec fn views(v: Seq<String>) -> Seq<Seq<char>> {
    v.map_values(|x: String| x@)
}

/// The pieces of `s` between `/` separators, empty ones included; there is
/// always at least one piece.
pub open spec fn split_path(s: Seq<char>) -> Seq<Seq<char>>
    decreases s.len(),
{
    if s.len() == 0 {
        seq![Seq::<char>::empty()]
    } else {
        let p = split_path(s.drop_last());
        if s.last() == '/' {
            p.push(Seq::<char>::empty())
        } else {
            p.update(p.len() - 1, p.last().push(s.last()))
        }
    }
}

/// The pieces that are not empty, in order.
pub open spec fn nonempty_parts(parts: Seq<Seq<char>>) -> Seq<Seq<char>>
    decreases parts.len(),
{
    if parts.len() == 0 {
        Seq::empty()
    } else if parts.last().len() == 0 {
        nonempty_parts(parts.drop_last())
    } else {
        nonempty_parts(parts.drop_last()).push(parts.last())
    }
}

/// The path starts at the root.
pub open spec fn is_absolute(path: Seq<char>) -> bool {
    path.len() > 0 && path[0] == '/'
}

/// The components of a path after its first one. The first component of an
/// absolute path is the root itself, so there only the root goes.
pub open spec fn strip_first(path: Seq<char>) -> Seq<Seq<char>> {
    let ne = nonempty_parts(split_path(path));
    if is_absolute(path) || ne.len() == 0 {
        ne
    } else {
        ne.drop_first()
    }
}

/// The pieces that are not `.`, in order.
pub open spec fn without_dots(parts: Seq<Seq<char>>) -> Seq<Seq<char>>
    decreases parts.len(),
{
    if parts.len() == 0 {
        Seq::empty()
    } else if parts.last() == "."@ {
        without_dots(parts.drop_last())
    } else {
        without_dots(parts.drop_last()).push(parts.last())
    }
}

/// The components joined with `/` between them.
pub open spec fn join(parts: Seq<Seq<char>>) -> Seq<char>
    decreases parts.len(),
{
    if parts.len() == 0 {
        Seq::empty()
    } else if parts.len() == 1 {
        parts[0]
    } else {
        join(parts.drop_last()) + "/"@ + parts.last()
    }
}

/// Lexical resolution of relative components: `.` stays, `..` removes the
/// component before it, and a `..` with nothing before it escapes the root,
/// which gives `None`.
pub open spec fn resolve(parts: Seq<Seq<char>>) -> Option<Seq<Seq<char>>>
    decreases parts.len(),
{
    if parts.len() == 0 {
        Some(Seq::empty())
    } else {
        match resolve(parts.drop_last()) {
            None => None,
            Some(st) => {
                let c = parts.last();
                if c == "."@ {
                    Some(st)
                } else if c == ".."@ {
                    if st.len() == 0 {
                        None
                    } else {
                        Some(st.drop_last())
                    }
                } else {
                    Some(st.push(c))
                }
            },
        }
    }
}

/// There is always at least one piece.
pub proof fn lemma_split_nonempty(s: Seq<char>)
    ensures
        split_path(s).len() >= 1,
    decreases s.len(),
{
    if s.len() > 0 {
        lemma_split_nonempty(s.drop_last());
    }
}

/// Splits `s` into the pieces between `/` separators.
pub fn split_parts(s: &str) -> (r: Vec<String>)
    ensures
        views(r@) == split_path(s@),
{
    let n = s.unicode_len();
    let mut parts: Vec<String> = Vec::new();
    let mut start: usize = 0;
    let mut i: usize = 0;
    proof {
        assert(views(parts@) == Seq::<Seq<char>>::empty());
        assert(s@.take(0) == Seq::<char>::empty());
        assert(s@.subrange(0, 0) == Seq::<char>::empty());
        assert(views(parts@).push(s@.subrange(0, 0)) == seq![Seq::<char>::empty()]);
    }
    while i < n
        invariant
            n == s@.len(),
            start <= i <= n,
            views(parts@).push(s@.subrange(start as int, i as int)) == split_path(s@.take(i as int)),
        decreases n - i,
    {
        let c = s.get_char(i);
        proof {
            assert(s@.take(i + 1).drop_last() == s@.take(i as int));
            lemma_split_nonempty(s@.take(i as int));
        }
        if c == '/' {
            let piece = s.substring_char(start, i).to_owned();
            proof {
                assert(views(parts@.push(piece)) == views(parts@).push(piece@));
            }
            parts.push(piece);
            start = i + 1;
            assert(s@.subrange(start as int, i + 1) == Seq::<char>::empty());
        } else {
            assert(s@.subrange(start as int, i + 1) == s@.subrange(start as int, i as int).push(c));
        }
        i = i + 1;
    }
    let piece = s.substring_char(start, n).to_owned();
    proof {
        assert(views(parts@.push(piece)) == views(parts@).push(piece@));
        assert(s@.take(n as int) == s@);
    }
    parts.push(piece);
    parts
}

proof fn lemma_resolve_none_extends(parts: Seq<Seq<char>>, k: int)
    requires
        0 <= k <= parts.len(),
        resolve(parts.take(k)) is None,
    ensures
        resolve(parts) is None,
    decreases parts.len(),
{
    if k < parts.len() {
        assert(parts.drop_last().take(k) == parts.take(k));
        lemma_resolve_none_extends(parts.drop_last(), k);
    } else {
        assert(parts.take(k) == parts);
    }
}

fn is_single_dot(s: &str) -> (r: bool)
    ensures
        r == (s@ == "."@),
{
    proof {
        reveal_strlit(".");
    }
    let n = s.unicode_len();
    if n != 1 {
        return false;
    }
    let c = s.get_char(0);
    assert(c == '.' ==> s@ == "."@);
    c == '.'
}

fn is_double_dot(s: &str) -> (r: bool)
    ensures
        r == (s@ == ".."@),
{
    proof {
        reveal_strlit("..");
    }
    let n = s.unicode_len();
    if n != 2 {
        return false;
    }
    let c0 = s.get_char(0);
    let c1 = s.get_char(1);
    assert(c0 == '.' && c1 == '.' ==> s@ == ".."@);
    c0 == '.' && c1 == '.'
}

/// The pieces that are not empty.
pub fn keep_nonempty(parts: &Vec<String>) -> (r: Vec<String>)
    ensures
        views(r@) == nonempty_parts(views(parts@)),
{
    let mut r: Vec<String> = Vec::new();
    let mut i: usize = 0;
    assert(views(parts@).take(0) == Seq::<Seq<char>>::empty());
    assert(views(r@) == Seq::<Seq<char>>::empty());
    while i < parts.len()
        invariant
            i <= parts.len(),
            views(r@) == nonempty_parts(views(parts@).take(i as int)),
        decreases parts.len() - i,
    {
        assert(views(parts@).take(i + 1).drop_last() == views(parts@).take(i as int));
        assert(views(parts@).take(i + 1).last() == parts@[i as int]@);
        if parts[i].as_str().unicode_len() != 0 {
            let piece = parts[i].clone();
            assert(views(r@.push(piece)) == views(r@).push(piece@));
            r.push(piece);
        }
        i = i + 1;
    }
    assert(views(parts@).take(parts.len() as int) == views(parts@));
    r
}

/// Joins `parts[from..]` with `/` between them.
pub fn join_from(parts: &Vec<String>, from: usize) -> (r: String)
    requires
        from <= parts.len(),
    ensures
        r@ == join(views(parts@).subrange(from as int, parts.len() as int)),
{
    let n = parts.len();
    if from == n {
        assert(views(parts@).subrange(from as int, n as int) == Seq::<Seq<char>>::empty());
        return String::new();
    }
    let mut r = parts[from].clone();
    let mut i: usize = from + 1;
    assert(views(parts@).subrange(from as int, i as int) == seq![parts@[from as int]@]);
    while i < n
        invariant
            n == parts.len(),
            from < i <= n,
            r@ == join(views(parts@).subrange(from as int, i as int)),
        decreases n - i,
    {
        assert(views(parts@).subrange(from as int, i + 1).drop_last() == views(parts@).subrange(
            from as int,
            i as int,
        ));
        r.append("/");
        r.append(parts[i].as_str());
        i = i + 1;
    }
    r
}

/// The path without its first component, as a relative path: empty pieces
/// are dropped, then the root of an absolute path, or else the first
/// remaining piece, is removed; of the rest, the `.` pieces are dropped and
/// the others joined with `/`.
pub fn remove_leading_component(path: &str) -> (r: String)
    ensures
        is_absolute(path@) ==> r@ == join(without_dots(nonempty_parts(split_path(path@)))),
        !is_absolute(path@) ==> r@ == join(without_dots(strip_first(path@))),
{
    let pieces = split_parts(path);
    let ne = keep_nonempty(&pieces);
    let n = path.unicode_len();
    let from: usize = if ne.len() == 0 || (n > 0 && path.get_char(0) == '/') {
        0
    } else {
        1
    };
    proof {
        if from == 0 {
            assert(views(ne@).subrange(0, ne.len() as int) =~= views(ne@));
        } else {
            assert(views(ne@).subrange(1, ne.len() as int) =~= views(ne@).drop_first());
        }
    }
    let rest = drop_dots_from(&ne, from);
    assert(views(rest@).subrange(0, rest.len() as int) =~= views(rest@));
    join_from(&rest, 0)
}

/// The pieces `parts[from..]` that are not `.`, in order.
pub fn drop_dots_from(parts: &Vec<String>, from: usize) -> (r: Vec<String>)
    requires
        from <= parts.len(),
    ensures
        views(r@) == without_dots(views(parts@).subrange(from as int, parts.len() as int)),
{
    let n = parts.len();
    let ghost sub = views(parts@).subrange(from as int, n as int);
    let mut r: Vec<String> = Vec::new();
    let mut i: usize = from;
    assert(sub.take(0) =~= Seq::<Seq<char>>::empty());
    assert(views(r@) =~= Seq::<Seq<char>>::empty());
    while i < n
        invariant
            n == parts.len(),
            from <= i <= n,
            sub == views(parts@).subrange(from as int, n as int),
            views(r@) == without_dots(sub.take(i - from)),
        decreases n - i,
    {
        assert(sub.take(i - from + 1).drop_last() =~= sub.take(i - from));
        assert(sub.take(i - from + 1).last() == parts@[i as int]@);
        if !is_single_dot(parts[i].as_str()) {
            let piece = parts[i].clone();
            assert(views(r@.push(piece)) =~= views(r@).push(piece@));
            r.push(piece);
        }
        i = i + 1;
    }
    assert(sub.take(n - from) =~= sub);
    r
}

/// Resolves `parts[from..]` lexically.
pub fn resolve_from(parts: &Vec<String>, from: usize) -> (r: Option<Vec<String>>)
    requires
        from <= parts.len(),
    ensures
        match resolve(views(parts@).subrange(from as int, parts.len() as int)) {
            None => r is None,
            Some(st) => r matches Some(v) && views(v@) == st,
        },
{
    let n = parts.len();
    let ghost sub = views(parts@).subrange(from as int, n as int);
    let mut stack: Vec<String> = Vec::new();
    let mut i: usize = from;
    assert(sub.take(0) == Seq::<Seq<char>>::empty());
    assert(views(stack@) == Seq::<Seq<char>>::empty());
    while i < n
        invariant
            n == parts.len(),
            from <= i <= n,
            sub == views(parts@).subrange(from as int, n as int),
            resolve(sub.take(i - from)) == Some(views(stack@)),
        decreases n - i,
    {
        let ghost pre = sub.take(i - from);
        let ghost next = sub.take(i - from + 1);
        assert(next.drop_last() == pre);
        assert(next.last() == parts@[i as int]@);
        let part = parts[i].as_str();
        if is_single_dot(part) {
        } else if is_double_dot(part) {
            if stack.len() == 0 {
                proof {
                    lemma_resolve_none_extends(sub, i - from + 1);
                }
                return None;
            }
            let ghost before = stack@;
            stack.pop();
            assert(views(stack@) == views(before).drop_last());
        } else {
            let piece = parts[i].clone();
            assert(views(stack@.push(piece)) == views(stack@).push(piece@));
            stack.push(piece);
        }
        i = i + 1;
    }
    assert(sub.take(n - from) == sub);
    Some(stack)
}

proof fn lemma_join_first(p: Seq<Seq<char>>)
    requires
        p.len() >= 2,
    ensures
        join(p) == p[0] + "/"@ + join(p.drop_first()),
    decreases p.len(),
{
    let d = p.drop_first();
    assert(d.drop_last() =~= p.drop_last().drop_first());
    assert(d.last() == p.last());
    if p.len() == 2 {
        assert(p.drop_last() =~= seq![p[0]]);
        assert(d.drop_last() =~= Seq::<Seq<char>>::empty());
        assert(join(p.drop_last()) == p[0]);
        assert(join(p) == join(p.drop_last()) + "/"@ + p.last());
        assert(join(d) == d[0]);
        assert(d[0] == p.last());
    } else {
        lemma_join_first(p.drop_last());
        assert(p.drop_last()[0] == p[0]);
        assert(join(p) =~= p[0] + "/"@ + join(d));
    }
}

/// Stripping loses only the first component of a relative path: putting it
/// back in front of the result, with a separator, rebuilds the path from
/// its non-empty pieces.
pub proof fn lemma_strip_rebuilds(path: Seq<char>)
    requires
        !is_absolute(path),
        nonempty_parts(split_path(path)).len() >= 2,
    ensures
        join(nonempty_parts(split_path(path))) == nonempty_parts(split_path(path))[0] + "/"@
            + join(strip_first(path)),
{
    lemma_join_first(nonempty_parts(split_path(path)));
}

} // verus!

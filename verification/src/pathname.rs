//! Paths as sequences of components, the way `std::path::Path` reads them on
//! Unix: a leading `/` is the root, empty components (from a doubled or a
//! trailing `/`) and `.` components are dropped, except a leading `.` of a
//! relative path. Two paths are the same path when they have the same root
//! and the same components.

use vstd::prelude::*;

use crate::text::{chars_of, same_chars};

verus! {

/// The pieces of `p` between slashes, in order, empty ones included.
pub open spec fn slash_pieces(p: Seq<char>) -> Seq<Seq<char>>
    decreases p.len(),
{
    if p.len() == 0 {
        seq![Seq::<char>::empty()]
    } else {
        let s = slash_pieces(p.drop_last());
        if p.last() == '/' {
            s.push(Seq::<char>::empty())
        } else {
            s.update(s.len() - 1, s.last().push(p.last()))
        }
    }
}

/// Whether a piece between slashes names a component: it is neither empty
/// nor `.`.
pub open spec fn names_component() -> spec_fn(Seq<char>) -> bool {
    |c: Seq<char>| c.len() > 0 && c != seq!['.']
}

/// Whether `p` starts at the root.
pub open spec fn has_root(p: Seq<char>) -> bool {
    p.len() > 0 && p[0] == '/'
}

/// Whether `p` starts with a `.` component that is kept: `p` is `.` or
/// starts with `./`.
pub open spec fn leading_cur_dir(p: Seq<char>) -> bool {
    p.len() > 0 && p[0] == '.' && (p.len() == 1 || p[1] == '/')
}

/// The components of `p` after its root, if any.
pub open spec fn path_components(p: Seq<char>) -> Seq<Seq<char>> {
    (if leading_cur_dir(p) {
        seq![seq!['.']]
    } else {
        Seq::<Seq<char>>::empty()
    }) + slash_pieces(p).filter(names_component())
}

/// The components `cs` with a `/` between each two.
pub open spec fn joined_by_slash(cs: Seq<Seq<char>>) -> Seq<char>
    decreases cs.len(),
{
    if cs.len() == 0 {
        Seq::<char>::empty()
    } else if cs.len() == 1 {
        cs[0]
    } else {
        joined_by_slash(cs.drop_last()) + seq!['/'] + cs.last()
    }
}

/// The path written out from a root (if `root`) and components `cs`.
pub open spec fn rebuilt(root: bool, cs: Seq<Seq<char>>) -> Seq<char> {
    (if root {
        seq!['/']
    } else {
        Seq::<char>::empty()
    }) + joined_by_slash(cs)
}

/// The plain spelling of path `p`: its root and its components, nothing
/// else. Two paths are the same path exactly when these are equal.
pub open spec fn normalized(p: Seq<char>) -> Seq<char> {
    rebuilt(has_root(p), path_components(p))
}

/// The last component of `p` if it is a name (not `.` or `..`), as
/// `Path::file_name` gives it.
pub open spec fn spec_file_name(p: Seq<char>) -> Option<Seq<char>> {
    let cs = path_components(p);
    if cs.len() > 0 && cs.last() != seq!['.'] && cs.last() != seq!['.', '.'] {
        Some(cs.last())
    } else {
        None
    }
}

/// The plain spelling of the parent of `p`, as `Path::parent` gives it: `p`
/// without its last component, or `None` if `p` is the root or empty.
pub open spec fn spec_parent(p: Seq<char>) -> Option<Seq<char>> {
    let cs = path_components(p);
    if cs.len() > 0 {
        Some(rebuilt(has_root(p), cs.drop_last()))
    } else {
        None
    }
}

/// The position of the last `.` in `name`, or -1 if there is none.
pub open spec fn last_dot(name: Seq<char>) -> int
    decreases name.len(),
{
    if name.len() == 0 {
        -1
    } else if name.last() == '.' {
        name.len() - 1
    } else {
        last_dot(name.drop_last())
    }
}

/// The extension of a file name, as `Path::extension` defines it: `None`
/// if the name has no `.`, or its only `.` comes first; else what follows
/// the last `.`.
pub open spec fn spec_extension_of_name(name: Seq<char>) -> Option<Seq<char>> {
    if last_dot(name) <= 0 {
        None
    } else {
        Some(name.skip(last_dot(name) + 1))
    }
}

/// The extension of path `p`: that of its file name, if it has one.
pub open spec fn spec_extension(p: Seq<char>) -> Option<Seq<char>> {
    match spec_file_name(p) {
        Some(name) => spec_extension_of_name(name),
        None => None,
    }
}

/// `slash_pieces` is never empty.
proof fn lemma_pieces_nonempty(p: Seq<char>)
    ensures
        slash_pieces(p).len() >= 1,
    decreases p.len(),
{
    if p.len() > 0 {
        lemma_pieces_nonempty(p.drop_last());
    }
}

/// Whether `c` holds no `/`.
spec fn slash_free(c: Seq<char>) -> bool {
    forall|i: int| 0 <= i < c.len() ==> c[i] != '/'
}

/// Whether every one of `cs` is a non-empty run of characters without `/`.
spec fn all_names(cs: Seq<Seq<char>>) -> bool {
    forall|k: int| 0 <= k < cs.len() ==> (#[trigger] cs[k]).len() > 0 && slash_free(cs[k])
}

/// No piece between slashes holds a slash.
proof fn lemma_pieces_slash_free(p: Seq<char>)
    ensures
        forall|k: int| 0 <= k < slash_pieces(p).len() ==> slash_free(#[trigger] slash_pieces(p)[k]),
    decreases p.len(),
{
    lemma_pieces_nonempty(p);
    if p.len() > 0 {
        let s = slash_pieces(p.drop_last());
        lemma_pieces_slash_free(p.drop_last());
        lemma_pieces_nonempty(p.drop_last());
        if p.last() == '/' {
            assert forall|k: int| 0 <= k < slash_pieces(p).len() implies slash_free(#[trigger] slash_pieces(p)[k]) by {
                if k < s.len() {
                    assert(slash_pieces(p)[k] == s[k]);
                } else {
                    assert(slash_pieces(p)[k] == Seq::<char>::empty());
                }
            }
        } else {
            assert forall|k: int| 0 <= k < slash_pieces(p).len() implies slash_free(#[trigger] slash_pieces(p)[k]) by {
                if k < s.len() - 1 {
                    assert(slash_pieces(p)[k] == s[k]);
                } else {
                    let l = s.last().push(p.last());
                    assert(slash_pieces(p)[k] == l);
                    assert(slash_free(s[s.len() - 1]));
                    assert forall|i: int| 0 <= i < l.len() implies l[i] != '/' by {
                        if i < s.last().len() {
                            assert(l[i] == s[s.len() - 1][i]);
                        }
                    }
                }
            }
        }
    }
}

/// The components of a path are non-empty and hold no `/`.
proof fn lemma_components_are_names(p: Seq<char>)
    ensures
        all_names(path_components(p)),
{
    lemma_pieces_slash_free(p);
    let pieces = slash_pieces(p);
    let f = pieces.filter(names_component());
    let lead = if leading_cur_dir(p) {
        seq![seq!['.']]
    } else {
        Seq::<Seq<char>>::empty()
    };
    assert(path_components(p) == lead + f);
    assert forall|k: int| 0 <= k < path_components(p).len() implies (#[trigger] path_components(p)[k]).len() > 0
        && slash_free(path_components(p)[k]) by {
        if k < lead.len() {
            assert(path_components(p)[k] == seq!['.']);
            assert(slash_free(seq!['.']));
        } else {
            let c = f[k - lead.len()];
            assert(path_components(p)[k] == c);
            pieces.lemma_filter_pred(names_component(), k - lead.len());
            pieces.lemma_filter_contains_rev(names_component(), c);
            let idx = choose|idx: int| 0 <= idx < pieces.len() && pieces[idx] == c;
            assert(slash_free(pieces[idx]));
        }
    }
}

/// Components written out with slashes start with the first component.
proof fn lemma_joined_first(cs: Seq<Seq<char>>)
    requires
        cs.len() > 0,
        cs[0].len() > 0,
    ensures
        joined_by_slash(cs).len() > 0,
        joined_by_slash(cs)[0] == cs[0][0],
    decreases cs.len(),
{
    if cs.len() > 1 {
        assert(cs.drop_last()[0] == cs[0]);
        lemma_joined_first(cs.drop_last());
    }
}

/// Components written out with slashes hold a slash once there are two.
proof fn lemma_joined_slash(cs: Seq<Seq<char>>)
    requires
        cs.len() > 1,
    ensures
        joined_by_slash(cs.drop_last()).len() < joined_by_slash(cs).len(),
        joined_by_slash(cs)[joined_by_slash(cs.drop_last()).len() as int] == '/',
{
}

/// Names written out with slashes can be read back: the writing is
/// one-to-one.
proof fn lemma_joined_injective(a: Seq<Seq<char>>, b: Seq<Seq<char>>)
    requires
        all_names(a),
        all_names(b),
        joined_by_slash(a) == joined_by_slash(b),
    ensures
        a == b,
    decreases a.len(),
{
    if a.len() == 0 {
        if b.len() > 0 {
            lemma_joined_first(b);
        }
        assert(a =~= b);
    } else if b.len() == 0 {
        lemma_joined_first(a);
    } else if a.len() == 1 && b.len() == 1 {
        assert(a =~= b);
    } else if a.len() == 1 {
        lemma_joined_slash(b);
        let i = joined_by_slash(b.drop_last()).len() as int;
        assert(slash_free(a[0]));
        assert(joined_by_slash(a) == a[0]);
        assert(a[0][i] != '/');
    } else if b.len() == 1 {
        lemma_joined_slash(a);
        let i = joined_by_slash(a.drop_last()).len() as int;
        assert(slash_free(b[0]));
        assert(joined_by_slash(b) == b[0]);
        assert(b[0][i] != '/');
    } else {
        let s = joined_by_slash(a);
        let ja = joined_by_slash(a.drop_last());
        let jb = joined_by_slash(b.drop_last());
        let la = a.last();
        let lb = b.last();
        assert(s == ja + seq!['/'] + la);
        assert(s == jb + seq!['/'] + lb);
        assert(slash_free(a[a.len() - 1]));
        assert(slash_free(b[b.len() - 1]));
        if la.len() < lb.len() {
            let i = ja.len() as int;
            assert(s[i] == '/');
            assert(s[i] == lb[i - jb.len() - 1]);
        } else if lb.len() < la.len() {
            let i = jb.len() as int;
            assert(s[i] == '/');
            assert(s[i] == la[i - ja.len() - 1]);
        }
        assert(ja.len() == jb.len());
        assert(ja =~= s.subrange(0, ja.len() as int));
        assert(jb =~= s.subrange(0, jb.len() as int));
        assert(la =~= s.subrange(ja.len() as int + 1, s.len() as int));
        assert(lb =~= s.subrange(jb.len() as int + 1, s.len() as int));
        assert forall|k: int| 0 <= k < a.drop_last().len() implies (#[trigger] a.drop_last()[k]).len() > 0
            && slash_free(a.drop_last()[k]) by {
            assert(a.drop_last()[k] == a[k]);
        }
        assert forall|k: int| 0 <= k < b.drop_last().len() implies (#[trigger] b.drop_last()[k]).len() > 0
            && slash_free(b.drop_last()[k]) by {
            assert(b.drop_last()[k] == b[k]);
        }
        lemma_joined_injective(a.drop_last(), b.drop_last());
        assert(a =~= a.drop_last().push(la));
        assert(b =~= b.drop_last().push(lb));
    }
}

/// Law: two paths have the same plain spelling only if they are the same
/// path: the same root and the same components. So paths that differ in
/// any component, such as two files of one name with different
/// extensions, are never taken for one another.
pub proof fn law_normalized_tells_paths_apart(p: Seq<char>, q: Seq<char>)
    requires
        normalized(p) == normalized(q),
    ensures
        has_root(p) == has_root(q),
        path_components(p) == path_components(q),
{
    lemma_components_are_names(p);
    lemma_components_are_names(q);
    let cp = path_components(p);
    let cq = path_components(q);
    let n = normalized(p);
    if has_root(p) && !has_root(q) {
        assert(n[0] == '/');
        assert(n == joined_by_slash(cq));
        lemma_joined_first(cq);
        assert(slash_free(cq[0]));
    } else if has_root(q) && !has_root(p) {
        assert(n[0] == '/');
        assert(n == joined_by_slash(cp));
        lemma_joined_first(cp);
        assert(slash_free(cp[0]));
    }
    if has_root(p) {
        assert(joined_by_slash(cp) =~= n.subrange(1, n.len() as int));
        assert(joined_by_slash(cq) =~= n.subrange(1, n.len() as int));
    } else {
        assert(joined_by_slash(cp) =~= n);
        assert(joined_by_slash(cq) =~= n);
    }
    lemma_joined_injective(cp, cq);
}

/// The components of `p`, spelled as `String`s.
pub fn path_parts(p: &str) -> (parts: Vec<String>)
    ensures
        parts@.map_values(|s: String| s@) == path_components(p@),
{
    let c = chars_of(p);
    let len = c.len();
    let mut parts: Vec<String> = Vec::new();
    let ghost lead = if leading_cur_dir(p@) {
        seq![seq!['.']]
    } else {
        Seq::<Seq<char>>::empty()
    };
    if len > 0 && c[0] == '.' && (len == 1 || c[1] == '/') {
        let dot = ".";
        proof {
            reveal_strlit(".");
            assert(dot@ =~= seq!['.']);
        }
        parts.push(dot.to_owned());
        assert(leading_cur_dir(p@));
        assert(parts@.map_values(|s: String| s@) =~= lead);
    } else {
        assert(!leading_cur_dir(p@));
        assert(parts@.map_values(|s: String| s@) =~= lead);
    }
    proof {
        assert(c@.take(0) =~= Seq::<char>::empty());
        assert(slash_pieces(c@.take(0)).drop_last() =~= Seq::<Seq<char>>::empty());
        reveal(Seq::filter);
        assert(Seq::<Seq<char>>::empty().filter(names_component()) =~= Seq::<Seq<char>>::empty());
        assert(lead + Seq::<Seq<char>>::empty() =~= lead);
    }
    let mut start: usize = 0;
    let mut i: usize = 0;
    while i < len
        invariant
            len == c@.len(),
            c@ == p@,
            start <= i <= len,
            slash_pieces(c@.take(i as int)).len() >= 1,
            slash_pieces(c@.take(i as int)).last() == c@.subrange(start as int, i as int),
            parts@.map_values(|s: String| s@) == lead + slash_pieces(c@.take(i as int)).drop_last().filter(
                names_component(),
            ),
        decreases len - i,
    {
        let ghost before = slash_pieces(c@.take(i as int));
        proof {
            lemma_pieces_nonempty(c@.take(i as int));
            assert(c@.take(i as int + 1).drop_last() =~= c@.take(i as int));
        }
        if c[i] == '/' {
            proof {
                let done = before.drop_last();
                let cur = before.last();
                assert(before.push(Seq::<char>::empty()).drop_last() =~= before);
                assert(done.push(cur) =~= before);
                done.lemma_filter_push(cur, names_component());
            }
            let ghost cur = c@.subrange(start as int, i as int);
            if i > start && !(i - start == 1 && c[start] == '.') {
                let piece = p.substring_char(start, i);
                let owned = piece.to_owned();
                let ghost old_parts = parts@;
                parts.push(owned);
                proof {
                    assert(cur.len() > 0);
                    assert(cur != seq!['.']) by {
                        if cur == seq!['.'] {
                            assert(cur.len() == 1);
                            assert(cur[0] == c@[start as int]);
                        }
                    }
                    assert(names_component()(cur));
                    assert(parts@.map_values(|s: String| s@) =~= old_parts.map_values(|s: String| s@).push(cur));
                }
            } else {
                proof {
                    if i > start {
                        assert(cur =~= seq!['.']);
                    }
                }
            }
            start = i + 1;
            proof {
                assert(slash_pieces(c@.take(i as int + 1)).last() =~= c@.subrange(start as int, i as int + 1));
            }
        } else {
            proof {
                let upd = before.update(before.len() - 1, before.last().push(c@[i as int]));
                assert(upd.drop_last() =~= before.drop_last());
                assert(upd.last() =~= c@.subrange(start as int, i as int + 1));
            }
        }
        i = i + 1;
    }
    let ghost all = slash_pieces(c@);
    let ghost cur = c@.subrange(start as int, len as int);
    proof {
        assert(c@.take(len as int) =~= c@);
        assert(all.drop_last().push(cur) =~= all);
        all.drop_last().lemma_filter_push(cur, names_component());
    }
    if len > start && !(len - start == 1 && c[start] == '.') {
        let piece = p.substring_char(start, len);
        let owned = piece.to_owned();
        let ghost old_parts = parts@;
        parts.push(owned);
        proof {
            assert(names_component()(cur)) by {
                if cur == seq!['.'] {
                    assert(cur[0] == c@[start as int]);
                }
            }
            assert(parts@.map_values(|s: String| s@) =~= old_parts.map_values(|s: String| s@).push(cur));
            assert(lead + all.drop_last().filter(names_component()).push(cur) =~= (lead
                + all.drop_last().filter(names_component())).push(cur));
        }
    } else {
        proof {
            if len > start {
                assert(cur =~= seq!['.']);
            }
        }
    }
    parts
}

/// The path written out from a root (if `root`) and the first `n` of
/// `parts`.
pub fn join_parts(root: bool, parts: &Vec<String>, n: usize) -> (r: String)
    requires
        n <= parts@.len(),
    ensures
        r@ == rebuilt(root, parts@.map_values(|s: String| s@).take(n as int)),
{
    let ghost cs = parts@.map_values(|s: String| s@);
    let mut out = String::new();
    if root {
        let slash = "/";
        proof {
            reveal_strlit("/");
        }
        out.append(slash);
    }
    proof {
        assert(cs.take(0) =~= Seq::<Seq<char>>::empty());
        reveal_strlit("/");
        assert(out@ =~= rebuilt(root, cs.take(0)));
    }
    let mut k: usize = 0;
    while k < n
        invariant
            n <= parts@.len(),
            cs == parts@.map_values(|s: String| s@),
            k <= n,
            out@ == rebuilt(root, cs.take(k as int)),
        decreases n - k,
    {
        let ghost before = out@;
        proof {
            assert(cs.take(k as int + 1).drop_last() =~= cs.take(k as int));
            assert(cs.take(k as int + 1).last() == cs[k as int]);
        }
        if k > 0 {
            let slash = "/";
            proof {
                reveal_strlit("/");
            }
            out.append(slash);
        }
        out.append(parts[k].as_str());
        proof {
            if k == 0 {
                assert(cs.take(1) =~= seq![cs[0]]);
            }
            assert(out@ =~= rebuilt(root, cs.take(k as int + 1)));
        }
        k = k + 1;
    }
    out
}

/// The plain spelling of path `p`.
pub fn normalize_path(p: &str) -> (r: String)
    ensures
        r@ == normalized(p@),
{
    let parts = path_parts(p);
    let root = p.unicode_len() > 0 && p.get_char(0) == '/';
    let r = join_parts(root, &parts, parts.len());
    proof {
        assert(parts@.map_values(|s: String| s@).take(parts@.len() as int) =~= parts@.map_values(
            |s: String| s@,
        ));
    }
    r
}

/// The plain spelling of the parent of `p`, if it has one.
pub fn parent_path(p: &str) -> (r: Option<String>)
    ensures
        match r {
            Some(q) => spec_parent(p@) == Some(q@),
            None => spec_parent(p@) is None,
        },
{
    let parts = path_parts(p);
    if parts.len() == 0 {
        return None;
    }
    let root = p.unicode_len() > 0 && p.get_char(0) == '/';
    let r = join_parts(root, &parts, parts.len() - 1);
    proof {
        let cs = parts@.map_values(|s: String| s@);
        assert(cs.take(cs.len() - 1) =~= cs.drop_last());
    }
    Some(r)
}

/// Whether `s` is `want`, character by character.
fn is_text(s: &String, want: &Vec<char>) -> (r: bool)
    ensures
        r == (s@ == want@),
{
    let c = chars_of(s.as_str());
    same_chars(&c, want)
}

/// The last component of `p` if it is a name.
pub fn file_name(p: &str) -> (r: Option<String>)
    ensures
        match r {
            Some(n) => spec_file_name(p@) == Some(n@),
            None => spec_file_name(p@) is None,
        },
{
    let parts = path_parts(p);
    let n = parts.len();
    if n == 0 {
        return None;
    }
    let dot = vec!['.'];
    let dotdot = vec!['.', '.'];
    assert(dot@ =~= seq!['.']);
    assert(dotdot@ =~= seq!['.', '.']);
    if is_text(&parts[n - 1], &dot) || is_text(&parts[n - 1], &dotdot) {
        return None;
    }
    Some(parts[n - 1].clone())
}

/// `last_dot` finds the `.` after which none follows.
proof fn lemma_last_dot(name: Seq<char>, j: int)
    requires
        0 <= j <= name.len(),
        j == 0 || name[j - 1] == '.',
        forall|k: int| j <= k < name.len() ==> #[trigger] name[k] != '.',
    ensures
        last_dot(name) == j - 1,
    decreases name.len(),
{
    if name.len() > 0 && j < name.len() {
        assert forall|k: int| j <= k < name.len() - 1 implies #[trigger] name.drop_last()[k] != '.' by {
            assert(name.drop_last()[k] == name[k]);
        }
        lemma_last_dot(name.drop_last(), j);
    }
}

/// The extension of file name `name`.
pub fn extension_of_name(name: &str) -> (r: Option<String>)
    ensures
        match r {
            Some(e) => spec_extension_of_name(name@) == Some(e@),
            None => spec_extension_of_name(name@) is None,
        },
{
    let c = chars_of(name);
    let len = c.len();
    let mut j = len;
    while j > 0 && c[j - 1] != '.'
        invariant
            len == c@.len(),
            j <= len,
            forall|k: int| j <= k < len ==> #[trigger] c@[k] != '.',
        decreases j,
    {
        j = j - 1;
    }
    proof {
        lemma_last_dot(name@, j as int);
    }
    if j <= 1 {
        return None;
    }
    let ext = name.substring_char(j, len);
    Some(ext.to_owned())
}

/// The extension of path `p`.
pub fn extension(p: &str) -> (r: Option<String>)
    ensures
        match r {
            Some(e) => spec_extension(p@) == Some(e@),
            None => spec_extension(p@) is None,
        },
{
    match file_name(p) {
        Some(n) => extension_of_name(n.as_str()),
        None => None,
    }
}

/// Law: a file name's extension is what follows its last `.`, when
/// something comes before that dot: for a name `stem.ext` with a non-empty
/// `stem` and no `.` in `ext`, the extension is `ext`.
pub proof fn law_extension_follows_the_last_dot(stem: Seq<char>, ext: Seq<char>)
    requires
        stem.len() > 0,
        forall|k: int| 0 <= k < ext.len() ==> #[trigger] ext[k] != '.',
    ensures
        spec_extension_of_name(stem + seq!['.'] + ext) == Some(ext),
{
    let name = stem + seq!['.'] + ext;
    let j: int = stem.len() as int + 1;
    assert(name[j - 1] == '.');
    assert forall|k: int| j <= k < name.len() implies #[trigger] name[k] != '.' by {
        assert(name[k] == ext[k - j]);
    }
    lemma_last_dot(name, j);
    assert(name.skip(j) =~= ext);
}

/// Law: a file name with no `.` after its first character has no
/// extension.
pub proof fn law_name_without_dot_has_no_extension(name: Seq<char>)
    requires
        forall|k: int| 1 <= k < name.len() ==> #[trigger] name[k] != '.',
    ensures
        spec_extension_of_name(name) is None,
{
    if name.len() > 0 {
        if name[0] == '.' {
            lemma_last_dot(name, 1);
        } else {
            lemma_last_dot(name, 0);
        }
    } else {
        lemma_last_dot(name, 0);
    }
}

/// The first component of names written out with slashes comes first.
proof fn lemma_joined_prefix(cs: Seq<Seq<char>>, k: int)
    requires
        cs.len() > 0,
        0 <= k < cs[0].len(),
    ensures
        k < joined_by_slash(cs).len(),
        joined_by_slash(cs)[k] == cs[0][k],
    decreases cs.len(),
{
    if cs.len() > 1 {
        assert(cs.drop_last()[0] == cs[0]);
        lemma_joined_prefix(cs.drop_last(), k);
    }
}

/// Characters without a slash, written after `x`, extend its last piece.
proof fn lemma_pieces_extend(x: Seq<char>, b: Seq<char>)
    requires
        slash_free(b),
    ensures
        slash_pieces(x + b) == slash_pieces(x).update(
            slash_pieces(x).len() - 1,
            slash_pieces(x).last() + b,
        ),
    decreases b.len(),
{
    lemma_pieces_nonempty(x);
    let px = slash_pieces(x);
    if b.len() == 0 {
        assert(x + b =~= x);
        assert(px.last() + b =~= px.last());
        assert(px.update(px.len() - 1, px.last() + b) =~= px);
    } else {
        let b0 = b.drop_last();
        lemma_pieces_extend(x, b0);
        assert((x + b).drop_last() =~= x + b0);
        assert((x + b).last() == b.last());
        assert((px.last() + b0).push(b.last()) =~= px.last() + b);
        let s0 = slash_pieces(x + b0);
        assert(s0.update(s0.len() - 1, s0.last().push(b.last())) =~= px.update(px.len() - 1, px.last() + b));
    }
}

/// A slash written after `x` starts a new, empty piece.
proof fn lemma_pieces_slash(x: Seq<char>)
    ensures
        slash_pieces(x + seq!['/']) == slash_pieces(x).push(Seq::<char>::empty()),
{
    assert((x + seq!['/']).drop_last() =~= x);
    assert((x + seq!['/']).last() == '/');
}

/// Names without slashes, written after `x` and a slash with a slash
/// between each two, split back into the pieces of `x` and those names.
proof fn lemma_pieces_after(x: Seq<char>, cs: Seq<Seq<char>>)
    requires
        cs.len() > 0,
        forall|k: int| 0 <= k < cs.len() ==> slash_free(#[trigger] cs[k]),
    ensures
        slash_pieces(x + seq!['/'] + joined_by_slash(cs)) == slash_pieces(x) + cs,
    decreases cs.len(),
{
    let y = x + seq!['/'];
    lemma_pieces_slash(x);
    if cs.len() == 1 {
        assert(slash_free(cs[0]));
        lemma_pieces_extend(y, cs[0]);
        let py = slash_pieces(y);
        assert(py.last() + cs[0] =~= cs[0]);
        assert(py.update(py.len() - 1, cs[0]) =~= slash_pieces(x) + cs);
    } else {
        let d = cs.drop_last();
        assert forall|k: int| 0 <= k < d.len() implies slash_free(#[trigger] d[k]) by {
            assert(d[k] == cs[k]);
        }
        lemma_pieces_after(x, d);
        let z = y + joined_by_slash(d);
        assert(slash_free(cs[cs.len() - 1]));
        lemma_pieces_slash(z);
        lemma_pieces_extend(z + seq!['/'], cs.last());
        assert(y + joined_by_slash(cs) =~= z + seq!['/'] + cs.last());
        let pz = slash_pieces(z + seq!['/']);
        assert(pz.last() + cs.last() =~= cs.last());
        assert(pz.update(pz.len() - 1, cs.last()) =~= slash_pieces(x) + cs);
    }
}

/// Names without slashes, written with a slash between each two, split
/// back into those names.
proof fn lemma_pieces_of_joined(cs: Seq<Seq<char>>)
    requires
        cs.len() > 0,
        forall|k: int| 0 <= k < cs.len() ==> slash_free(#[trigger] cs[k]),
    ensures
        slash_pieces(joined_by_slash(cs)) == cs,
{
    let first = cs[0];
    let rest = cs.skip(1);
    assert(slash_free(cs[0]));
    lemma_pieces_extend(Seq::<char>::empty(), first);
    assert(Seq::<char>::empty() + first =~= first);
    assert(slash_pieces(first) =~= seq![first]);
    if cs.len() == 1 {
        assert(cs =~= seq![first]);
    } else {
        assert forall|k: int| 0 <= k < rest.len() implies slash_free(#[trigger] rest[k]) by {
            assert(rest[k] == cs[k + 1]);
        }
        lemma_pieces_after(first, rest);
        lemma_joined_split(cs);
        assert(seq![first] + rest =~= cs);
    }
}

/// Names written out with slashes are the first, a slash, and the rest
/// written out with slashes.
proof fn lemma_joined_split(cs: Seq<Seq<char>>)
    requires
        cs.len() > 1,
    ensures
        joined_by_slash(cs) == cs[0] + seq!['/'] + joined_by_slash(cs.skip(1)),
    decreases cs.len(),
{
    if cs.len() == 2 {
        assert(cs.drop_last() =~= seq![cs[0]]);
        assert(cs.skip(1) =~= seq![cs[1]]);
        assert(joined_by_slash(seq![cs[0]]) == cs[0]);
        assert(joined_by_slash(seq![cs[1]]) == cs[1]);
        assert(joined_by_slash(cs) =~= cs[0] + seq!['/'] + joined_by_slash(cs.skip(1)));
    } else {
        let d = cs.drop_last();
        let r = cs.skip(1);
        lemma_joined_split(d);
        assert(d.skip(1) =~= r.drop_last());
        assert(d[0] == cs[0]);
        assert(r.last() == cs.last());
        assert(r.len() > 1);
        assert(joined_by_slash(r) == joined_by_slash(r.drop_last()) + seq!['/'] + r.last());
        assert(joined_by_slash(cs) == joined_by_slash(d) + seq!['/'] + cs.last());
        assert(joined_by_slash(cs) =~= cs[0] + seq!['/'] + joined_by_slash(r));
    }
}

/// A sequence of names is kept whole by the filter that keeps names.
proof fn lemma_names_kept(cs: Seq<Seq<char>>)
    requires
        forall|k: int| 0 <= k < cs.len() ==> names_component()(#[trigger] cs[k]),
    ensures
        cs.filter(names_component()) == cs,
    decreases cs.len(),
{
    if cs.len() == 0 {
        reveal(Seq::filter);
        assert(cs.filter(names_component()) =~= cs);
    } else {
        let d = cs.drop_last();
        assert forall|k: int| 0 <= k < d.len() implies names_component()(#[trigger] d[k]) by {
            assert(d[k] == cs[k]);
        }
        lemma_names_kept(d);
        assert(names_component()(cs[cs.len() - 1]));
        d.lemma_filter_push(cs.last(), names_component());
        assert(d.push(cs.last()) =~= cs);
    }
}

/// Law: a path written plainly (a root or not, then names with one `/`
/// between each two, none of them empty, `.`, or holding a `/`) reads back
/// as exactly that root and those names, and is its own plain spelling.
/// So every name, `..` and names with dots included, counts as written.
pub proof fn law_plain_path_reads_back(root: bool, cs: Seq<Seq<char>>)
    requires
        forall|k: int| 0 <= k < cs.len() ==> (#[trigger] cs[k]).len() > 0 && cs[k] != seq!['.'],
        forall|k: int, i: int| 0 <= k < cs.len() && 0 <= i < cs[k].len() ==> #[trigger] cs[k][i] != '/',
    ensures
        has_root(rebuilt(root, cs)) == root,
        path_components(rebuilt(root, cs)) == cs,
        normalized(rebuilt(root, cs)) == rebuilt(root, cs),
{
    let p = rebuilt(root, cs);
    let j = joined_by_slash(cs);
    assert forall|k: int| 0 <= k < cs.len() implies slash_free(#[trigger] cs[k]) by {
        assert forall|i: int| 0 <= i < cs[k].len() implies cs[k][i] != '/' by {
            assert(cs[k][i] != '/');
        }
    }
    assert forall|k: int| 0 <= k < cs.len() implies names_component()(#[trigger] cs[k]) by {
        assert(cs[k].len() > 0 && cs[k] != seq!['.']);
    }
    lemma_names_kept(cs);
    if cs.len() > 0 {
        lemma_joined_prefix(cs, 0);
        assert(slash_free(cs[0]));
        if cs[0].len() > 1 {
            lemma_joined_prefix(cs, 1);
        }
    }
    if root {
        assert(p == seq!['/'] + j);
        assert(p[0] == '/');
        assert(!leading_cur_dir(p));
        let e = Seq::<char>::empty();
        if cs.len() == 0 {
            assert(p =~= e + seq!['/']);
            lemma_pieces_slash(e);
            assert(slash_pieces(e) =~= seq![e]);
            assert(slash_pieces(p) =~= seq![e, e]);
            lemma_empty_pieces_dropped();
        } else {
            assert(p =~= e + seq!['/'] + j);
            lemma_pieces_after(e, cs);
            assert(slash_pieces(e) =~= seq![e]);
            lemma_empty_pieces_dropped();
            lemma_filter_append_names(seq![e], cs);
            assert(Seq::<Seq<char>>::empty() + cs =~= cs);
        }
        assert(path_components(p) =~= cs);
    } else {
        assert(p =~= j);
        if cs.len() == 0 {
            assert(slash_pieces(p) =~= seq![Seq::<char>::empty()]);
            lemma_empty_pieces_dropped();
        } else {
            lemma_pieces_of_joined(cs);
            assert(!leading_cur_dir(p)) by {
                if leading_cur_dir(p) {
                    assert(cs[0][0] == '.');
                    if cs[0].len() == 1 {
                        assert(cs[0] =~= seq!['.']);
                    } else {
                        assert(p[1] == cs[0][1]);
                    }
                }
            }
        }
        assert(path_components(p) =~= cs);
    }
}

/// Empty pieces are not names: one or two of them leave nothing.
proof fn lemma_empty_pieces_dropped()
    ensures
        seq![Seq::<char>::empty()].filter(names_component()) == Seq::<Seq<char>>::empty(),
        seq![Seq::<char>::empty(), Seq::<char>::empty()].filter(names_component()) == Seq::<Seq<char>>::empty(),
{
    let e = Seq::<char>::empty();
    let z = Seq::<Seq<char>>::empty();
    reveal(Seq::filter);
    assert(z.filter(names_component()) =~= z);
    assert(!names_component()(e));
    z.lemma_filter_push(e, names_component());
    assert(z.push(e) =~= seq![e]);
    seq![e].lemma_filter_push(e, names_component());
    assert(seq![e].push(e) =~= seq![e, e]);
}

/// Keeping names from pieces followed by names keeps the names that the
/// pieces had, then all of the names.
proof fn lemma_filter_append_names(a: Seq<Seq<char>>, cs: Seq<Seq<char>>)
    requires
        forall|k: int| 0 <= k < cs.len() ==> names_component()(#[trigger] cs[k]),
    ensures
        (a + cs).filter(names_component()) == a.filter(names_component()) + cs,
    decreases cs.len(),
{
    if cs.len() == 0 {
        assert(a + cs =~= a);
        assert(a.filter(names_component()) + cs =~= a.filter(names_component()));
    } else {
        let d = cs.drop_last();
        assert forall|k: int| 0 <= k < d.len() implies names_component()(#[trigger] d[k]) by {
            assert(d[k] == cs[k]);
        }
        lemma_filter_append_names(a, d);
        assert(names_component()(cs[cs.len() - 1]));
        (a + d).lemma_filter_push(cs.last(), names_component());
        assert((a + d).push(cs.last()) =~= a + cs);
        assert((a.filter(names_component()) + d).push(cs.last()) =~= a.filter(names_component()) + cs);
    }
}

} // verus!

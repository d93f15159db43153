//! Paths of cgroups.

use vstd::prelude::*;

use crate::text;

verus! {

/// The path of a cgroup without white space around it and slashes at its end. The root stays as it is.
pub open spec fn normalized(cgroup: Seq<char>) -> Seq<char> {
    let path = text::trimmed(cgroup);
    if path == "/"@ {
        path
    } else {
        text::without_trailing(path, '/')
    }
}

/// Brings the path of a cgroup into the form in which paths are held against each other.
pub fn normalize_foreground_cgroup(cgroup: &str) -> (r: String)
    ensures
        r@ == normalized(cgroup@),
{
    let path: String = text::trim(cgroup);
    if text::same(path.as_str(), "/") {
        return path;
    }
    text::trim_end_matches(path.as_str(), '/')
}

/// Whether a cgroup is another or lies below it. Of the empty paths neither is in the other.
pub open spec fn within(process: Seq<char>, foreground: Seq<char>) -> bool {
    &&& process.len() > 0
    &&& foreground.len() > 0
    &&& if foreground == "/"@ {
        process[0] == '/'
    } else {
        ||| process == foreground
        ||| foreground.is_prefix_of(process) && process.len() > foreground.len() && process[foreground.len() as int]
            == '/'
    }
}

/// Whether a process in the cgroup `process` is in the cgroup `foreground`.
pub fn process_cgroup_matches(process: &str, foreground: &str) -> (r: bool)
    ensures
        r == within(process@, foreground@),
{
    proof {
        reveal_strlit("/");
        assert("/"@ =~= seq!['/']);
    }
    let path: Vec<char> = text::chars(process);
    if path.len() == 0 || text::chars(foreground).len() == 0 {
        return false;
    }
    if text::same(foreground, "/") {
        return path[0] == '/';
    }
    if text::same(process, foreground) {
        return true;
    }
    match text::strip_prefix(process, foreground) {
        Some(rest) => {
            let rest: Vec<char> = text::chars(rest.as_str());
            proof {
                if rest@.len() > 0 {
                    assert(rest@[0] == process@[foreground@.len() as int]);
                } else {
                    assert(process@ =~= foreground@);
                }
            }
            rest.len() > 0 && rest[0] == '/'
        },
        None => false,
    }
}

/// The cgroup of an application: the one directly below the first `/app.slice/` of a path. A path without such
/// a part stands for itself.
pub open spec fn app_scope(cgroup: Seq<char>) -> Seq<char> {
    match text::first_occurrence(cgroup, "/app.slice/"@) {
        Some(at) => {
            let start = at + "/app.slice/"@.len();
            let scope = text::pieces(cgroup.skip(start), '/')[0];
            if scope.len() == 0 {
                cgroup
            } else {
                cgroup.take(start) + scope
            }
        },
        None => cgroup,
    }
}

/// The cgroup of the application that a cgroup belongs to.
pub fn app_scope_cgroup(cgroup: &str) -> (r: String)
    ensures
        r@ == app_scope(cgroup@),
{
    match text::find(cgroup, "/app.slice/") {
        Some(at) => {
            let total: usize = text::chars(cgroup).len();
            let start: usize = at + text::chars("/app.slice/").len();
            proof {
                assert(cgroup@.subrange(start as int, total as int) =~= cgroup@.skip(start as int));
                assert(cgroup@.subrange(0, start as int) =~= cgroup@.take(start as int));
            }
            let scopes: Vec<String> = text::split(cgroup.substring_char(start, total), '/');
            proof {
                assert(text::texts(scopes@)[0] == scopes@[0]@);
            }
            if text::chars(scopes[0].as_str()).len() == 0 {
                return cgroup.to_owned();
            }
            let mut path: String = cgroup.substring_char(0, start).to_owned();
            path.append(scopes[0].as_str());
            path
        },
        None => cgroup.to_owned(),
    }
}

/// A path with steps added to it.
pub open spec fn descended(base: Seq<char>, steps: Seq<Seq<char>>) -> Seq<char>
    decreases steps.len(),
{
    if steps.len() == 0 {
        base
    } else {
        descended(base, steps.drop_last()) + "/"@ + steps.last()
    }
}

/// Whether a piece of a path leads to another directory.
pub open spec fn is_step(piece: Seq<char>) -> bool {
    piece.len() > 0 && piece != "."@
}

/// The path of a file of a cgroup below the directory where the kernel shows the cgroups. There is none for a path
/// that does not start at the root, that holds a NUL or that leads upwards.
pub open spec fn file_path(cgroup: Seq<char>, file: Seq<char>) -> Option<Seq<char>> {
    let steps = text::pieces(cgroup, '/');
    if cgroup.len() == 0 || cgroup[0] != '/' || cgroup.contains('\0') || steps.contains(".."@) {
        None
    } else if file.len() > 0 && file[0] == '/' {
        Some(file)
    } else {
        Some(
            descended("/sys/fs/cgroup"@, steps.filter(|piece: Seq<char>| is_step(piece))) + "/"@ + file,
        )
    }
}

/// Whether a character stands in a text.
fn holds_char(v: &Vec<char>, c: char) -> (r: bool)
    ensures
        r == v@.contains(c),
{
    let mut i: usize = 0;
    while i < v.len()
        invariant
            i <= v@.len(),
            forall|j: int| 0 <= j < i ==> v@[j] != c,
        decreases v@.len() - i,
    {
        if v[i] == c {
            return true;
        }
        i += 1;
    }
    false
}

/// The path of a file of a cgroup.
pub fn cgroup_file(cgroup: &str, file: &str) -> (r: Option<String>)
    ensures
        (match r {
            Some(path) => Some(path@),
            None => None,
        }) == file_path(cgroup@, file@),
{
    let v: Vec<char> = text::chars(cgroup);
    if v.len() == 0 || v[0] != '/' || holds_char(&v, '\0') {
        return None;
    }
    let steps: Vec<String> = text::split(cgroup, '/');
    let ghost all = text::pieces(cgroup@, '/');
    let ghost kept = |piece: Seq<char>| is_step(piece);
    let mut path: String = "/sys/fs/cgroup".to_owned();
    let mut i: usize = 0;
    proof {
        assert(all.take(0).filter(kept) =~= Seq::empty()) by {
            reveal(Seq::filter);
        }
    }
    while i < steps.len()
        invariant
            i <= steps@.len(),
            all == text::texts(steps@),
            all == text::pieces(cgroup@, '/'),
            kept == (|piece: Seq<char>| is_step(piece)),
            forall|j: int| 0 <= j < i ==> all[j] != ".."@,
            path@ == descended("/sys/fs/cgroup"@, all.take(i as int).filter(kept)),
        decreases steps@.len() - i,
    {
        let ghost piece = all[i as int];
        let ghost before = all.take(i as int).filter(kept);
        proof {
            assert(piece == steps@[i as int]@);
            assert(all.take(i + 1) =~= all.take(i as int).push(piece));
            all.take(i as int).lemma_filter_push(piece, kept);
            assert(before.push(piece).drop_last() =~= before);
        }
        if text::same(steps[i].as_str(), "..") {
            proof {
                assert(all[i as int] == ".."@);
                assert(all.contains(".."@));
            }
            return None;
        }
        if text::chars(steps[i].as_str()).len() > 0 && !text::same(steps[i].as_str(), ".") {
            path.append("/");
            path.append(steps[i].as_str());
        }
        i += 1;
    }
    proof {
        assert(all.take(i as int) =~= all);
        assert(!all.contains(".."@));
    }
    let name: Vec<char> = text::chars(file);
    if name.len() > 0 && name[0] == '/' {
        return Some(file.to_owned());
    }
    path.append("/");
    path.append(file);
    Some(path)
}

/// A path that was brought into form does not end with a slash, unless it is the root.
pub proof fn lemma_normalized_end(cgroup: Seq<char>)
    ensures
        normalized(cgroup) == "/"@ || normalized(cgroup).len() == 0 || normalized(cgroup).last() != '/',
{
    lemma_without_trailing_end(text::trimmed(cgroup), '/');
}

proof fn lemma_without_trailing_end(s: Seq<char>, c: char)
    ensures
        text::without_trailing(s, c).len() == 0 || text::without_trailing(s, c).last() != c,
    decreases s.len(),
{
    if s.len() > 0 && s.last() == c {
        lemma_without_trailing_end(s.drop_last(), c);
    }
}

/// A cgroup is in itself.
pub proof fn lemma_within_itself(path: Seq<char>)
    requires
        path.len() > 0,
    ensures
        within(path, path),
{
    reveal_strlit("/");
}

/// A cgroup that is in another is in every one that the other is in.
pub proof fn lemma_within_transitive(a: Seq<char>, b: Seq<char>, c: Seq<char>)
    requires
        within(a, b),
        within(b, c),
    ensures
        within(a, c),
{
    reveal_strlit("/");
    assert("/"@ =~= seq!['/']);
    if b.is_prefix_of(a) {
        assert forall|i: int| 0 <= i < b.len() implies a[i] == b[i] by {
            assert(a.subrange(0, b.len() as int)[i] == a[i]);
        }
        if c.is_prefix_of(b) {
            assert forall|i: int| 0 <= i < c.len() implies b[i] == c[i] by {
                assert(b.subrange(0, c.len() as int)[i] == b[i]);
            }
            assert(a.subrange(0, c.len() as int) =~= c);
        }
    }
}

/// A cgroup below another is in it. One whose path only goes on where the other ends is not.
pub proof fn lemma_within_step(path: Seq<char>, rest: Seq<char>)
    requires
        path.len() > 0,
        path != "/"@,
        rest.len() > 0,
    ensures
        within(path + rest, path) <==> rest[0] == '/',
{
    let longer = path + rest;
    assert(longer.subrange(0, path.len() as int) =~= path);
    assert(longer[path.len() as int] == rest[0]);
    assert(longer.len() != path.len());
}

/// The application of an application's cgroup is that cgroup.
pub proof fn lemma_app_scope_stands(cgroup: Seq<char>)
    ensures
        app_scope(app_scope(cgroup)) == app_scope(cgroup),
{
    let slice = "/app.slice/"@;
    if let Some(at) = text::first_occurrence(cgroup, slice) {
        let found = choose|i: int| text::occurs_at(cgroup, slice, i);
        lemma_first_exists(cgroup, slice, found);
        assert(text::first_occurs_at(cgroup, slice, at));
        let start = at + slice.len();
        let scope = text::pieces(cgroup.skip(start), '/')[0];
        if scope.len() > 0 {
            let path = cgroup.take(start) + scope;
            assert(path.subrange(at, start) =~= cgroup.subrange(at, start));
            assert forall|i: int| 0 <= i < at implies !text::occurs_at(path, slice, i) by {
                if text::occurs_at(path, slice, i) {
                    assert(cgroup.subrange(i, i + slice.len()) =~= path.subrange(i, i + slice.len()));
                    assert(text::occurs_at(cgroup, slice, i));
                }
            }
            assert(text::occurs_at(path, slice, at));
            text::lemma_first_occurrence(path, slice, at);
            assert(path.skip(start) =~= scope);
            text::lemma_pieces(cgroup.skip(start), '/');
            text::lemma_one_piece(scope, '/');
            assert(path.take(start) + scope =~= path);
        }
    }
}

/// Where there is an occurrence there is a first one.
proof fn lemma_first_exists(s: Seq<char>, pattern: Seq<char>, at: int)
    requires
        text::occurs_at(s, pattern, at),
    ensures
        exists|i: int| text::first_occurs_at(s, pattern, i),
    decreases at,
{
    if exists|i: int| 0 <= i < at && text::occurs_at(s, pattern, i) {
        let i = choose|i: int| 0 <= i < at && text::occurs_at(s, pattern, i);
        lemma_first_exists(s, pattern, i);
    } else {
        assert(text::first_occurs_at(s, pattern, at));
    }
}

/// The files of cgroups are below the directory where the kernel shows the cgroups.
pub proof fn lemma_file_below(cgroup: Seq<char>, file: Seq<char>)
    requires
        file.len() == 0 || file[0] != '/',
        file_path(cgroup, file) is Some,
    ensures
        ("/sys/fs/cgroup"@ + "/"@).is_prefix_of(file_path(cgroup, file)->0),
{
    let base = "/sys/fs/cgroup"@;
    let steps = text::pieces(cgroup, '/').filter(|piece: Seq<char>| is_step(piece));
    let path = descended(base, steps) + "/"@ + file;
    lemma_descended(base, steps);
    if steps.len() == 0 {
        assert(path.subrange(0, (base + "/"@).len() as int) =~= base + "/"@);
    } else {
        let longer = descended(base, steps);
        assert forall|i: int| 0 <= i < (base + "/"@).len() implies longer[i] == (base + "/"@)[i] by {
            assert(longer.subrange(0, (base + "/"@).len() as int)[i] == longer[i]);
        }
        assert(path.subrange(0, (base + "/"@).len() as int) =~= base + "/"@);
    }
}

/// A path with steps added to it starts with the path, and with a slash behind it.
proof fn lemma_descended(base: Seq<char>, steps: Seq<Seq<char>>)
    ensures
        steps.len() == 0 ==> descended(base, steps) == base,
        steps.len() > 0 ==> (base + "/"@).is_prefix_of(descended(base, steps)),
    decreases steps.len(),
{
    if steps.len() > 0 {
        let head = steps.drop_last();
        lemma_descended(base, head);
        let before = descended(base, head);
        let after = descended(base, steps);
        let start = base + "/"@;
        if head.len() > 0 {
            assert forall|i: int| 0 <= i < start.len() implies before[i] == start[i] by {
                assert(before.subrange(0, start.len() as int)[i] == before[i]);
            }
        }
        assert(after.subrange(0, start.len() as int) =~= start);
    }
}

/// The path of a file of a cgroup does not lead upwards, if the name of the file does not.
pub proof fn lemma_never_upwards(cgroup: Seq<char>, file: Seq<char>)
    requires
        file.len() == 0 || file[0] != '/',
        !text::pieces(file, '/').contains(".."@),
        file_path(cgroup, file) is Some,
    ensures
        !text::pieces(file_path(cgroup, file)->0, '/').contains(".."@),
{
    let base = "/sys/fs/cgroup"@;
    let all = text::pieces(cgroup, '/');
    let kept = |piece: Seq<char>| is_step(piece);
    let steps = all.filter(kept);
    reveal_strlit("/");
    reveal_strlit("..");
    reveal_strlit("/sys/fs/cgroup");
    assert("/"@ =~= seq!['/']);
    assert(!text::pieces(base, '/').contains(".."@)) by {
        text::lemma_pieces_characters(base, '/', '.');
        if text::pieces(base, '/').contains(".."@) {
            let i = choose|i: int| 0 <= i < text::pieces(base, '/').len() && text::pieces(base, '/')[i] == ".."@;
            assert(text::pieces(base, '/')[i][0] == '.');
        }
    }
    assert forall|i: int| 0 <= i < steps.len() implies !(#[trigger] steps[i]).contains('/') && steps[i] != ".."@ by {
        assert(steps.contains(steps[i]));
        all.lemma_filter_contains_rev(kept, steps[i]);
        let j = choose|j: int| 0 <= j < all.len() && all[j] == steps[i];
        text::lemma_pieces(cgroup, '/');
        assert(!all[j].contains('/'));
    }
    lemma_descended_pieces(base, steps);
    let path = descended(base, steps);
    text::lemma_pieces_joined(path, '/', file);
    let joined = text::pieces(path, '/') + text::pieces(file, '/');
    if joined.contains(".."@) {
        let i = choose|i: int| 0 <= i < joined.len() && joined[i] == ".."@;
        if i < text::pieces(path, '/').len() {
            assert(text::pieces(path, '/')[i] == ".."@);
        } else {
            assert(text::pieces(file, '/')[i - text::pieces(path, '/').len()] == ".."@);
        }
    }
}

/// The pieces of a path with steps added to it are those of the path and the steps.
proof fn lemma_descended_pieces(base: Seq<char>, steps: Seq<Seq<char>>)
    requires
        !text::pieces(base, '/').contains(".."@),
        forall|i: int| 0 <= i < steps.len() ==> !(#[trigger] steps[i]).contains('/') && steps[i] != ".."@,
        "/"@ == seq!['/'],
    ensures
        !text::pieces(descended(base, steps), '/').contains(".."@),
    decreases steps.len(),
{
    if steps.len() > 0 {
        let head = steps.drop_last();
        let last = steps.last();
        assert forall|i: int| 0 <= i < head.len() implies !(#[trigger] head[i]).contains('/') && head[i] != ".."@ by {
            assert(head[i] == steps[i]);
        }
        lemma_descended_pieces(base, head);
        let path = descended(base, head);
        assert(last == steps[steps.len() - 1]);
        text::lemma_one_piece(last, '/');
        text::lemma_pieces_joined(path, '/', last);
        let joined = text::pieces(path, '/') + seq![last];
        assert(text::pieces(descended(base, steps), '/') == joined);
        if joined.contains(".."@) {
            let i = choose|i: int| 0 <= i < joined.len() && joined[i] == ".."@;
            if i < text::pieces(path, '/').len() {
                assert(text::pieces(path, '/')[i] == ".."@);
            }
        }
    }
}

} // verus!

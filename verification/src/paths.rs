//! Paths as text, as Unix and Windows read them.
//!
//! A path is a prefix, which only Windows has, then a root or a leading `.` at most, then a body of
//! names. Repeated separators, trailing separators and `.` inside the body stand for nothing; in a
//! verbatim path of Windows, which starts with `\\?\`, a `.` is a name like any other.

use vstd::prelude::*;

verus! {

/// The system that a path is read by.
#[derive(Debug, Clone, Copy, PartialEq, Eq, Structural)]
pub enum PathStyle {
    /// Names are separated by `/`.
    Unix,
    /// Names are separated by `\` or `/`, and a path may start with a prefix such as `C:`.
    Windows,
}

/// The path of a file.
#[derive(Debug, PartialEq)]
pub struct FilePath {
    /// The system that the text is read by.
    pub style: PathStyle,
    /// The path's text.
    pub text: String,
}

/// What a [`FilePath`] holds.
#[verifier::ext_equal]
pub struct PathView {
    pub style: PathStyle,
    pub text: Seq<char>,
}

impl View for FilePath {
    type V = PathView;

    open spec fn view(&self) -> PathView {
        PathView { style: self.style, text: self.text@ }
    }
}

impl Clone for FilePath {
    fn clone(&self) -> (r: Self)
        ensures
            r@ == self@,
    {
        FilePath { style: self.style, text: self.text.clone() }
    }
}

/// How the names of a path are told apart.
#[derive(Debug, Clone, Copy, PartialEq, Eq, Structural)]
pub enum Grammar {
    /// By `/`.
    Unix,
    /// By `\` or `/`.
    Windows,
    /// By `\` alone.
    Verbatim,
}

/// Whether `c` separates names.
pub open spec fn separates(g: Grammar, c: char) -> bool {
    match g {
        Grammar::Unix => c == '/',
        Grammar::Windows => c == '/' || c == '\\',
        Grammar::Verbatim => c == '\\',
    }
}

/// Whether `p` starts with `\\?\`.
pub open spec fn is_verbatim(p: Seq<char>) -> bool {
    p.len() >= 4 && p[0] == '\\' && p[1] == '\\' && p[2] == '?' && p[3] == '\\'
}

/// How the names of `p` are told apart.
pub open spec fn grammar(style: PathStyle, p: Seq<char>) -> Grammar {
    match style {
        PathStyle::Unix => Grammar::Unix,
        PathStyle::Windows => if is_verbatim(p) {
            Grammar::Verbatim
        } else {
            Grammar::Windows
        },
    }
}

/// Where the run of characters ends that starts at `i` and holds no separator.
pub open spec fn run_end(g: Grammar, p: Seq<char>, i: int) -> int
    decreases p.len() - i,
{
    if i >= p.len() {
        p.len() as int
    } else if separates(g, p[i]) {
        i
    } else {
        run_end(g, p, i + 1)
    }
}

/// Whether a drive stands at `i`: a letter and a colon.
pub open spec fn is_drive(p: Seq<char>, i: int) -> bool {
    i + 1 < p.len() && ('a' <= p[i] <= 'z' || 'A' <= p[i] <= 'Z') && p[i + 1] == ':'
}

/// Where the second of two runs ends, the first of which starts at `i`, with one separator between
/// them; where the first ends if there is no second.
pub open spec fn pair_end(g: Grammar, p: Seq<char>, i: int) -> int {
    let first = run_end(g, p, i);
    if first < p.len() && run_end(g, p, first + 1) > first + 1 {
        run_end(g, p, first + 1)
    } else {
        first
    }
}

/// Where the prefix of a verbatim path ends: a server and a share behind `UNC`, a drive, or any one
/// name.
pub open spec fn verbatim_prefix_end(p: Seq<char>) -> int {
    if p.len() >= 8 && p[4] == 'U' && p[5] == 'N' && p[6] == 'C' && separates(
        Grammar::Windows,
        p[7],
    ) {
        pair_end(Grammar::Verbatim, p, 8)
    } else if is_drive(p, 4) && (p.len() == 6 || separates(Grammar::Windows, p[6])) {
        6
    } else {
        run_end(Grammar::Verbatim, p, 4)
    }
}

/// Where the prefix of `p` ends. On Windows that is a verbatim prefix, the name of a device behind
/// `\\.\`, a server and a share behind `\\`, or a drive.
pub open spec fn prefix_end(style: PathStyle, p: Seq<char>) -> int {
    let g = Grammar::Windows;
    if style == PathStyle::Unix {
        0
    } else if is_verbatim(p) {
        verbatim_prefix_end(p)
    } else if p.len() >= 2 && separates(g, p[0]) && separates(g, p[1]) {
        let server = run_end(g, p, 2);
        let share = pair_end(g, p, 2);
        if p.len() >= 4 && p[2] == '.' && separates(g, p[3]) {
            run_end(g, p, 4)
        } else if server > 2 && share > server {
            share
        } else {
            0
        }
    } else if is_drive(p, 0) {
        2
    } else {
        0
    }
}

/// Whether `p` goes on, behind its prefix, with a leading `.`.
pub open spec fn has_cur_dir(style: PathStyle, p: Seq<char>) -> bool {
    let e = prefix_end(style, p);
    e < p.len() && p[e] == '.' && (e + 1 == p.len() || separates(grammar(style, p), p[e + 1]))
}

/// Whether `p` goes on, behind its prefix, with a separator.
pub open spec fn has_root(style: PathStyle, p: Seq<char>) -> bool {
    let e = prefix_end(style, p);
    e < p.len() && match style {
        PathStyle::Unix => p[e] == '/',
        PathStyle::Windows => separates(Grammar::Windows, p[e]),
    }
}

/// The length of what precedes the body of `p`.
pub open spec fn body_start(style: PathStyle, p: Seq<char>) -> int {
    if has_root(style, p) || has_cur_dir(style, p) {
        prefix_end(style, p) + 1
    } else {
        prefix_end(style, p)
    }
}

/// Where the last name of `p.take(end)` starts: behind its last separator from `floor` on.
pub open spec fn name_start(g: Grammar, p: Seq<char>, floor: int, end: int) -> int
    decreases end - floor,
{
    if end <= floor {
        floor
    } else if separates(g, p[end - 1]) {
        end
    } else {
        name_start(g, p, floor, end - 1)
    }
}

/// `p` without what stands for nothing at the end of its body, which starts at `floor`.
pub open spec fn trim_path(g: Grammar, p: Seq<char>, floor: int) -> Seq<char>
    decreases p.len(),
{
    let start = name_start(g, p, floor, p.len() as int);
    if floor < 0 || p.len() <= floor {
        p
    } else if start == p.len() {
        trim_path(g, p.drop_last(), floor)
    } else if start == p.len() - 1 && p.last() == '.' && g != Grammar::Verbatim {
        trim_path(g, p.drop_last(), floor)
    } else {
        p
    }
}

/// The path that `p` is in: `p` without its last name, or the empty path where `p` is `.`. A root,
/// a prefix and the empty path are in none, and so is `.` behind a prefix.
pub open spec fn parent_path(style: PathStyle, p: Seq<char>) -> Option<Seq<char>> {
    let g = grammar(style, p);
    let floor = body_start(style, p);
    let t = trim_path(g, p, floor);
    if t.len() > floor {
        Some(trim_path(g, t.take(name_start(g, t, floor, t.len() as int)), floor))
    } else if has_cur_dir(style, p) && prefix_end(style, p) == 0 {
        Some(Seq::empty())
    } else {
        None
    }
}

/// The names of a verbatim path from `i` on, each behind one `\`.
pub open spec fn squeezed(p: Seq<char>, i: int) -> Seq<char>
    decreases p.len() - i,
{
    if i < 0 || i >= p.len() {
        Seq::empty()
    } else if p[i] == '\\' {
        squeezed(p, i + 1)
    } else {
        let end = run_end(Grammar::Verbatim, p, i);
        proof {
            lemma_run_end(Grammar::Verbatim, p, i);
            assert(run_end(Grammar::Verbatim, p, i) == run_end(Grammar::Verbatim, p, i + 1));
            if i + 1 <= p.len() {
                lemma_run_end(Grammar::Verbatim, p, i + 1);
            }
        }
        seq!['\\'] + p.subrange(i, end) + squeezed(p, end)
    }
}

/// A run ends within the text, before a separator or at the end.
pub proof fn lemma_run_end(g: Grammar, p: Seq<char>, i: int)
    requires
        0 <= i <= p.len(),
    ensures
        i <= run_end(g, p, i) <= p.len(),
        run_end(g, p, i) < p.len() ==> separates(g, p[run_end(g, p, i)]),
    decreases p.len() - i,
{
    if i < p.len() && !separates(g, p[i]) {
        lemma_run_end(g, p, i + 1);
    }
}

/// Whether `name` is the name of a file on any system: no separator, no colon, neither `.` nor
/// `..`.
pub open spec fn is_plain(name: Seq<char>) -> bool {
    &&& name.len() > 0
    &&& !name.contains('/')
    &&& !name.contains('\\')
    &&& !name.contains(':')
    &&& name != seq!['.']
    &&& name != seq!['.', '.']
}

/// The file with the plain name `name` in the directory `dir`. A drive takes no separator, and a
/// verbatim path is written anew, with one `\` before each name.
pub open spec fn joined_path(style: PathStyle, dir: Seq<char>, name: Seq<char>) -> Seq<char> {
    match style {
        PathStyle::Unix => if dir.len() == 0 || dir.last() == '/' {
            dir + name
        } else {
            dir.push('/') + name
        },
        PathStyle::Windows => if is_verbatim(dir) {
            (dir.take(prefix_end(style, dir)) + squeezed(dir, body_start(style, dir))).push('\\')
                + name
        } else if dir.len() == 0 || separates(Grammar::Windows, dir.last()) || (dir.len() == 2
            && is_drive(dir, 0)) {
            dir + name
        } else {
            dir.push('\\') + name
        },
    }
}

/// The directory of `p`, or `.` where `p` is in none.
pub open spec fn directory_of(p: PathView) -> PathView {
    PathView {
        style: p.style,
        text: match parent_path(p.style, p.text) {
            Some(dir) => dir,
            None => seq!['.'],
        },
    }
}

/// The file `name` in the directory `dir`.
pub open spec fn file_in(dir: PathView, name: Seq<char>) -> PathView {
    PathView { style: dir.style, text: joined_path(dir.style, dir.text, name) }
}

/// The file `name` in the directory of `p`.
pub open spec fn sibling_path(p: PathView, name: Seq<char>) -> PathView {
    file_in(directory_of(p), name)
}

fn separator(g: Grammar, c: char) -> (r: bool)
    ensures
        r == separates(g, c),
{
    match g {
        Grammar::Unix => c == '/',
        Grammar::Windows => c == '/' || c == '\\',
        Grammar::Verbatim => c == '\\',
    }
}

fn verbatim(p: &str) -> (r: bool)
    ensures
        r == is_verbatim(p@),
{
    p.unicode_len() >= 4 && p.get_char(0) == '\\' && p.get_char(1) == '\\' && p.get_char(2) == '?'
        && p.get_char(3) == '\\'
}

fn grammar_of(style: PathStyle, p: &str) -> (r: Grammar)
    ensures
        r == grammar(style, p@),
{
    match style {
        PathStyle::Unix => Grammar::Unix,
        PathStyle::Windows => if verbatim(p) {
            Grammar::Verbatim
        } else {
            Grammar::Windows
        },
    }
}

fn find_run_end(g: Grammar, p: &str, from: usize) -> (r: usize)
    requires
        from <= p@.len(),
    ensures
        r == run_end(g, p@, from as int),
        from <= r <= p@.len(),
{
    let n: usize = p.unicode_len();
    let mut i: usize = from;
    while i < n && !separator(g, p.get_char(i))
        invariant
            n == p@.len(),
            from <= i <= n,
            run_end(g, p@, from as int) == run_end(g, p@, i as int),
        decreases n - i,
    {
        i = i + 1;
    }
    i
}

fn find_pair_end(g: Grammar, p: &str, from: usize) -> (r: usize)
    requires
        from <= p@.len(),
    ensures
        r == pair_end(g, p@, from as int),
        from <= r <= p@.len(),
{
    let first = find_run_end(g, p, from);
    if first < p.unicode_len() {
        let second = find_run_end(g, p, first + 1);
        if second > first + 1 {
            return second;
        }
    }
    first
}

fn drive_at(p: &str, i: usize) -> (r: bool)
    requires
        i < usize::MAX,
    ensures
        r == is_drive(p@, i as int),
{
    if i + 1 < p.unicode_len() {
        let c = p.get_char(i);
        (('a' <= c && c <= 'z') || ('A' <= c && c <= 'Z')) && p.get_char(i + 1) == ':'
    } else {
        false
    }
}

fn find_prefix_end(style: PathStyle, p: &str) -> (r: usize)
    ensures
        r == prefix_end(style, p@),
        r <= p@.len(),
{
    let g = Grammar::Windows;
    let n: usize = p.unicode_len();
    match style {
        PathStyle::Unix => 0,
        PathStyle::Windows => if verbatim(p) {
            if n >= 8 && p.get_char(4) == 'U' && p.get_char(5) == 'N' && p.get_char(6) == 'C'
                && separator(g, p.get_char(7)) {
                find_pair_end(Grammar::Verbatim, p, 8)
            } else if drive_at(p, 4) && (n == 6 || separator(g, p.get_char(6))) {
                6
            } else {
                find_run_end(Grammar::Verbatim, p, 4)
            }
        } else if n >= 2 && separator(g, p.get_char(0)) && separator(g, p.get_char(1)) {
            if n >= 4 && p.get_char(2) == '.' && separator(g, p.get_char(3)) {
                find_run_end(g, p, 4)
            } else {
                let server = find_run_end(g, p, 2);
                let share = find_pair_end(g, p, 2);
                if server > 2 && share > server {
                    share
                } else {
                    0
                }
            }
        } else if drive_at(p, 0) {
            2
        } else {
            0
        },
    }
}

fn starts_with_cur_dir(style: PathStyle, p: &str) -> (r: bool)
    ensures
        r == has_cur_dir(style, p@),
{
    let n: usize = p.unicode_len();
    let e = find_prefix_end(style, p);
    e < n && p.get_char(e) == '.' && (e + 1 == n || separator(
        grammar_of(style, p),
        p.get_char(e + 1),
    ))
}

fn find_body_start(style: PathStyle, p: &str) -> (r: usize)
    ensures
        r == body_start(style, p@),
        r <= p@.len(),
{
    let e = find_prefix_end(style, p);
    let rooted = e < p.unicode_len() && match style {
        PathStyle::Unix => p.get_char(e) == '/',
        PathStyle::Windows => separator(Grammar::Windows, p.get_char(e)),
    };
    if rooted || starts_with_cur_dir(style, p) {
        e + 1
    } else {
        e
    }
}

fn find_name_start(g: Grammar, p: &str, floor: usize) -> (r: usize)
    requires
        floor <= p@.len(),
    ensures
        r == name_start(g, p@, floor as int, p@.len() as int),
        floor <= r <= p@.len(),
{
    let mut end: usize = p.unicode_len();
    while end > floor && !separator(g, p.get_char(end - 1))
        invariant
            floor <= end <= p@.len(),
            name_start(g, p@, floor as int, p@.len() as int) == name_start(
                g,
                p@,
                floor as int,
                end as int,
            ),
        decreases end,
    {
        end = end - 1;
    }
    end
}

fn trim_trailing(g: Grammar, p: &str, floor: usize) -> (r: &str)
    ensures
        r@ == trim_path(g, p@, floor as int),
    decreases p@.len(),
{
    let n: usize = p.unicode_len();
    if n <= floor {
        return p;
    }
    let start = find_name_start(g, p, floor);
    let nothing = match g {
        Grammar::Verbatim => start == n,
        _ => start == n || (start == n - 1 && p.get_char(n - 1) == '.'),
    };
    if nothing {
        let rest = p.substring_char(0, n - 1);
        assert(rest@ =~= p@.drop_last());
        trim_trailing(g, rest, floor)
    } else {
        p
    }
}

fn squeeze(p: &str, from: usize) -> (r: String)
    requires
        from <= p@.len(),
    ensures
        r@ == squeezed(p@, from as int),
    decreases p@.len() - from,
{
    let n: usize = p.unicode_len();
    if from >= n {
        let r = String::new();
        assert(r@ =~= Seq::empty());
        return r;
    }
    if p.get_char(from) == '\\' {
        squeeze(p, from + 1)
    } else {
        let end = find_run_end(Grammar::Verbatim, p, from);
        proof {
            lemma_run_end(Grammar::Verbatim, p@, from + 1);
            reveal_strlit("\\");
            assert("\\"@ =~= seq!['\\']);
        }
        let rest = squeeze(p, end);
        "\\".to_owned().concat(p.substring_char(from, end)).concat(rest.as_str())
    }
}

fn parent_text(style: PathStyle, p: &str) -> (r: Option<&str>)
    ensures
        match (r, parent_path(style, p@)) {
            (Some(dir), Some(expected)) => dir@ == expected,
            (None, None) => true,
            _ => false,
        },
{
    let g = grammar_of(style, p);
    let floor = find_body_start(style, p);
    let t = trim_trailing(g, p, floor);
    if t.unicode_len() > floor {
        let start = find_name_start(g, t, floor);
        let rest = t.substring_char(0, start);
        assert(rest@ =~= t@.take(start as int));
        Some(trim_trailing(g, rest, floor))
    } else if starts_with_cur_dir(style, p) && find_prefix_end(style, p) == 0 {
        let nothing = p.substring_char(0, 0);
        assert(nothing@ =~= Seq::empty());
        Some(nothing)
    } else {
        None
    }
}

impl FilePath {
    /// A path that is read as on Unix.
    pub fn unix(text: &str) -> (r: Self)
        ensures
            r@ == (PathView { style: PathStyle::Unix, text: text@ }),
    {
        FilePath { style: PathStyle::Unix, text: text.to_owned() }
    }

    /// A path that is read as on Windows.
    pub fn windows(text: &str) -> (r: Self)
        ensures
            r@ == (PathView { style: PathStyle::Windows, text: text@ }),
    {
        FilePath { style: PathStyle::Windows, text: text.to_owned() }
    }

    /// The path that this one is in. A root, a prefix and the empty path are in none, and so is `.`
    /// behind a prefix.
    pub fn parent(&self) -> (r: Option<FilePath>)
        ensures
            match r {
                Some(dir) => dir.style == self.style && parent_path(self.style, self.text@) == Some(
                    dir.text@,
                ),
                None => parent_path(self.style, self.text@) is None,
            },
    {
        match parent_text(self.style, self.text.as_str()) {
            Some(dir) => Some(FilePath { style: self.style, text: dir.to_owned() }),
            None => None,
        }
    }

    /// The directory of this path, or `.` where it is in none.
    pub fn directory(&self) -> (r: FilePath)
        ensures
            r@ == directory_of(self@),
    {
        match self.parent() {
            Some(dir) => dir,
            None => {
                proof {
                    reveal_strlit(".");
                    assert("."@ =~= seq!['.']);
                }
                FilePath { style: self.style, text: ".".to_owned() }
            },
        }
    }

    /// The file with the plain name `name` in this directory.
    pub(crate) fn join(&self, name: &str) -> (r: FilePath)
        requires
            is_plain(name@),
        ensures
            r@ == file_in(self@, name@),
    {
        let dir = self.text.as_str();
        let n: usize = dir.unicode_len();
        proof {
            reveal_strlit("/");
            reveal_strlit("\\");
            assert(dir@ + "/"@ =~= dir@.push('/'));
            assert(dir@ + "\\"@ =~= dir@.push('\\'));
        }
        let front = match self.style {
            PathStyle::Unix => if n == 0 || dir.get_char(n - 1) == '/' {
                dir.to_owned()
            } else {
                dir.to_owned().concat("/")
            },
            PathStyle::Windows => if verbatim(dir) {
                let e = find_prefix_end(self.style, dir);
                let rest = squeeze(dir, find_body_start(self.style, dir));
                let head = dir.substring_char(0, e);
                assert(head@ =~= dir@.take(e as int));
                assert((head@ + rest@) + "\\"@ =~= (head@ + rest@).push('\\'));
                head.to_owned().concat(rest.as_str()).concat("\\")
            } else if n == 0 || separator(Grammar::Windows, dir.get_char(n - 1)) || (n == 2
                && drive_at(dir, 0)) {
                dir.to_owned()
            } else {
                dir.to_owned().concat("\\")
            },
        };
        FilePath { style: self.style, text: front.concat(name) }
    }

    /// The file with the plain name `name` in the directory of this path.
    pub(crate) fn sibling(&self, name: &str) -> (r: FilePath)
        requires
            is_plain(name@),
        ensures
            r@ == sibling_path(self@, name@),
    {
        self.directory().join(name)
    }
}

proof fn lemma_name_start_at(g: Grammar, p: Seq<char>, floor: int, end: int, at: int)
    requires
        0 <= floor <= at <= end <= p.len(),
        at == floor || separates(g, p[at - 1]),
        forall|i: int| at <= i < end ==> !separates(g, #[trigger] p[i]),
    ensures
        name_start(g, p, floor, end) == at,
    decreases end - floor,
{
    if end > at {
        assert(!separates(g, p[end - 1]));
        lemma_name_start_at(g, p, floor, end - 1, at);
    }
}

proof fn lemma_name_start_bounds(g: Grammar, p: Seq<char>, floor: int, end: int)
    requires
        floor <= end,
    ensures
        floor <= name_start(g, p, floor, end) <= end,
    decreases end - floor,
{
    if floor < end && !separates(g, p[end - 1]) {
        lemma_name_start_bounds(g, p, floor, end - 1);
    }
}

proof fn lemma_trim_path_keeps_the_start(g: Grammar, p: Seq<char>, floor: int)
    requires
        0 <= floor <= p.len(),
    ensures
        floor <= trim_path(g, p, floor).len() <= p.len(),
        trim_path(g, p, floor) == p.take(trim_path(g, p, floor).len() as int),
    decreases p.len(),
{
    if floor < p.len() {
        lemma_trim_path_keeps_the_start(g, p.drop_last(), floor);
        let n = trim_path(g, p.drop_last(), floor).len() as int;
        assert(p.drop_last().take(n) =~= p.take(n));
    }
    assert(p.take(p.len() as int) =~= p);
}

proof fn lemma_trim_path_twice(g: Grammar, p: Seq<char>, floor: int)
    ensures
        trim_path(g, trim_path(g, p, floor), floor) == trim_path(g, p, floor),
    decreases p.len(),
{
    if 0 <= floor < p.len() {
        lemma_trim_path_twice(g, p.drop_last(), floor);
    }
}

proof fn lemma_starts(style: PathStyle, p: Seq<char>)
    ensures
        0 <= prefix_end(style, p) <= body_start(style, p) <= p.len(),
        is_verbatim(p) && style == PathStyle::Windows ==> {
            &&& prefix_end(style, p) >= 4
            &&& has_root(style, p) || prefix_end(style, p) == p.len()
        },
{
    let g = Grammar::Windows;
    if p.len() >= 2 {
        lemma_run_end(g, p, 2);
        if run_end(g, p, 2) < p.len() {
            lemma_run_end(g, p, run_end(g, p, 2) + 1);
        }
    }
    if p.len() >= 4 {
        lemma_run_end(g, p, 4);
        lemma_run_end(Grammar::Verbatim, p, 4);
    }
    if p.len() >= 8 {
        lemma_run_end(Grammar::Verbatim, p, 8);
        if run_end(Grammar::Verbatim, p, 8) < p.len() {
            lemma_run_end(Grammar::Verbatim, p, run_end(Grammar::Verbatim, p, 8) + 1);
        }
    }
}

proof fn lemma_squeezed_length(p: Seq<char>, i: int)
    requires
        0 <= i <= p.len(),
    ensures
        squeezed(p, i).len() <= p.len() - i + 1,
        i == p.len() ==> squeezed(p, i).len() == 0,
        i < p.len() && p[i] == '\\' ==> squeezed(p, i).len() <= p.len() - i,
    decreases p.len() - i,
{
    if i < p.len() {
        if p[i] == '\\' {
            lemma_squeezed_length(p, i + 1);
        } else {
            let end = run_end(Grammar::Verbatim, p, i);
            lemma_run_end(Grammar::Verbatim, p, i);
            lemma_run_end(Grammar::Verbatim, p, i + 1);
            lemma_squeezed_length(p, end);
        }
    }
}

/// Whether a file in `dir` has `dir` in front of its name, and its body starts where that of `dir`
/// does.
pub open spec fn joins_on(style: PathStyle, dir: Seq<char>, name: Seq<char>) -> bool {
    let p = joined_path(style, dir, name);
    &&& dir.is_prefix_of(p.take(p.len() - name.len()))
    &&& body_start(style, p) == body_start(style, dir)
}

/// The parent of a named file in a directory is that directory.
///
/// On Windows that holds of the directories that a name joins on to: not of `\\srv`, where it makes
/// a share of the name, nor of a verbatim path that is written anew.
pub proof fn parent_of_joined(style: PathStyle, dir: Seq<char>, name: Seq<char>)
    requires
        trim_path(grammar(style, dir), dir, body_start(style, dir)) == dir,
        is_plain(name) || style == PathStyle::Unix && is_unix_name(name),
        joins_on(style, dir, name),
    ensures
        parent_path(style, joined_path(style, dir, name)) == Some(dir),
{
    let g = grammar(style, dir);
    let p = joined_path(style, dir, name);
    let len = p.len() as int;
    let at = len - name.len();
    let floor = body_start(style, p);
    lemma_starts(style, dir);
    lemma_starts(style, p);
    assert(g == grammar(style, p)) by {
        assert forall|i: int| 0 <= i < dir.len() implies dir[i] == p[i] by {
            assert(dir[i] == p.take(at)[i]);
        }
    }
    assert(name.contains(name[0]));
    assert forall|i: int| at <= i < len implies !separates(g, #[trigger] p[i]) by {
        assert(p[i] == name[i - at]);
        assert(name.contains(name[i - at]));
    }
    assert(p.last() == name.last());
    assert(name.len() == 1 && name.last() == '.' ==> name =~= seq!['.']);
    lemma_squeezed_length(dir, floor);
    assert(at == dir.len() || (at == dir.len() + 1 && separates(g, p[at - 1])));
    assert(at == floor || separates(g, p[at - 1]));
    lemma_name_start_at(g, p, floor, len, at);
    assert(trim_path(g, p, floor) == p);
    let front = p.take(at);
    if at > dir.len() {
        assert(front.drop_last() =~= dir);
        lemma_name_start_at(g, front, floor, at, at);
    } else {
        assert(front =~= dir);
    }
}

/// Whether `name` is a name on Unix: no separator, and not `.`.
pub open spec fn is_unix_name(name: Seq<char>) -> bool {
    &&& name.len() > 0
    &&& !name.contains('/')
    &&& name != seq!['.']
}

/// On Unix a name joins on to every directory.
pub proof fn names_join_on_unix(dir: Seq<char>, name: Seq<char>)
    requires
        trim_path(Grammar::Unix, dir, body_start(PathStyle::Unix, dir)) == dir,
        is_plain(name) || is_unix_name(name),
    ensures
        joins_on(PathStyle::Unix, dir, name),
{
    let p = joined_path(PathStyle::Unix, dir, name);
    let front = p.take(p.len() - name.len());
    assert(name.contains(name[0]));
    if dir.len() > 0 {
        assert(p[0] == dir[0]);
        if dir.len() > 1 {
            assert(p[1] == dir[1]);
        }
        if dir.last() == '/' {
            let floor = body_start(PathStyle::Unix, dir);
            assert(front =~= dir);
            if dir.len() > 1 {
                lemma_trim_path_keeps_the_start(Grammar::Unix, dir.drop_last(), floor);
            }
        } else {
            assert(front =~= dir.push('/'));
        }
    } else {
        assert(p =~= name);
        assert(name.len() == 1 && name[0] == '.' ==> name =~= seq!['.']);
        if name.len() > 1 {
            assert(name.contains(name[1]));
        }
    }
}

proof fn lemma_run_end_in_front(g: Grammar, p: Seq<char>, n: int, i: int)
    requires
        0 <= i <= n <= p.len(),
    ensures
        run_end(g, p.take(n), i) == if run_end(g, p, i) < n {
            run_end(g, p, i)
        } else {
            n
        },
    decreases n - i,
{
    lemma_run_end(g, p, i);
    if i < n && !separates(g, p[i]) {
        lemma_run_end_in_front(g, p, n, i + 1);
    }
}

proof fn lemma_pair_end_in_front(g: Grammar, p: Seq<char>, n: int, i: int)
    requires
        0 <= i <= n <= p.len(),
    ensures
        pair_end(g, p, i) < n ==> pair_end(g, p.take(n), i) == pair_end(g, p, i),
        pair_end(g, p.take(n), i) > run_end(g, p.take(n), i) ==> pair_end(g, p, i) > run_end(
            g,
            p,
            i,
        ) && run_end(g, p.take(n), i) == run_end(g, p, i),
{
    let first = run_end(g, p, i);
    lemma_run_end(g, p, i);
    lemma_run_end_in_front(g, p, n, i);
    if first < n {
        lemma_run_end(g, p, first + 1);
        lemma_run_end_in_front(g, p, n, first + 1);
    }
}

/// A path that is cut off behind the start of its body keeps its prefix.
proof fn lemma_prefix_in_front(style: PathStyle, p: Seq<char>, n: int)
    requires
        body_start(style, p) <= n <= p.len(),
    ensures
        prefix_end(style, p.take(n)) == prefix_end(style, p),
        grammar(style, p.take(n)) == grammar(style, p),
{
    let q = p.take(n);
    let g = Grammar::Windows;
    let v = Grammar::Verbatim;
    lemma_starts(style, p);
    assert(n == p.len() ==> q =~= p);
    assert forall|i: int| 0 <= i < n implies q[i] == p[i] by {}
    if p.len() >= 2 {
        lemma_run_end(g, p, 2);
        if run_end(g, p, 2) < p.len() {
            lemma_run_end(g, p, run_end(g, p, 2) + 1);
        }
    }
    if p.len() >= 4 {
        lemma_run_end(g, p, 4);
        lemma_run_end(v, p, 4);
    }
    if p.len() >= 8 {
        lemma_run_end(v, p, 8);
        if run_end(v, p, 8) < p.len() {
            lemma_run_end(v, p, run_end(v, p, 8) + 1);
        }
    }
    if n >= 2 {
        lemma_run_end_in_front(g, p, n, 2);
        lemma_pair_end_in_front(g, p, n, 2);
    }
    if n >= 4 {
        lemma_run_end_in_front(g, p, n, 4);
        lemma_run_end_in_front(v, p, n, 4);
    }
    if n >= 8 {
        lemma_pair_end_in_front(v, p, n, 8);
    }
}

/// A file beside `p` is in the same directory as `p`.
///
/// On Windows that holds where a name joins on to the directory.
pub proof fn siblings_share_their_directory(p: PathView, name: Seq<char>)
    requires
        is_plain(name),
        p.style == PathStyle::Windows ==> joins_on(p.style, directory_of(p).text, name),
    ensures
        parent_path(p.style, sibling_path(p, name).text) == Some(directory_of(p).text),
{
    let g = grammar(p.style, p.text);
    let floor = body_start(p.style, p.text);
    let t = trim_path(g, p.text, floor);
    let dir = directory_of(p).text;
    lemma_starts(p.style, p.text);
    if t.len() > floor {
        let front = t.take(name_start(g, t, floor, t.len() as int));
        lemma_trim_path_twice(g, front, floor);
        lemma_trim_path_keeps_the_start(g, p.text, floor);
        lemma_name_start_bounds(g, t, floor, t.len() as int);
        lemma_trim_path_keeps_the_start(g, front, floor);
        assert(dir == trim_path(g, front, floor));
        assert(trim_path(g, dir, floor) == dir);
        assert(dir =~= p.text.take(dir.len() as int));
        lemma_prefix_in_front(p.style, p.text, dir.len() as int);
        let e = prefix_end(p.style, p.text);
        if dir.len() == e + 1 && dir[e] == '.' && floor == e {
            lemma_name_start_at(g, dir, e, e + 1, e);
            lemma_trim_path_keeps_the_start(g, dir.drop_last(), e);
        }
        assert(body_start(p.style, dir) == floor);
    }
    if p.style == PathStyle::Unix {
        names_join_on_unix(dir, name);
    }
    parent_of_joined(p.style, dir, name);
}

/// A file in a directory has its name at the end; what stands before it is the directory, with a
/// separator between them where one is needed. Files with different names in a directory are
/// different files.
pub proof fn names_come_last(style: PathStyle, dir: Seq<char>, a: Seq<char>, b: Seq<char>)
    ensures
        ({
            let p = joined_path(style, dir, a);
            &&& p.len() >= a.len()
            &&& p.skip(p.len() - a.len()) == a
            &&& p == joined_path(style, dir, b) ==> a == b
        }),
        joined_path(PathStyle::Unix, dir, a) == if dir.len() == 0 || dir.last() == '/' {
            dir + a
        } else {
            dir + seq!['/'] + a
        },
        !is_verbatim(dir) ==> joined_path(PathStyle::Windows, dir, a) == if dir.len() == 0
            || dir.last() == '/' || dir.last() == '\\' || (dir.len() == 2 && is_drive(dir, 0)) {
            dir + a
        } else {
            dir + seq!['\\'] + a
        },
{
    let front = match style {
        PathStyle::Unix => if dir.len() == 0 || dir.last() == '/' {
            dir
        } else {
            dir.push('/')
        },
        PathStyle::Windows => if is_verbatim(dir) {
            (dir.take(prefix_end(style, dir)) + squeezed(dir, body_start(style, dir))).push('\\')
        } else if dir.len() == 0 || separates(Grammar::Windows, dir.last()) || (dir.len() == 2
            && is_drive(dir, 0)) {
            dir
        } else {
            dir.push('\\')
        },
    };
    let p = joined_path(style, dir, a);
    let q = joined_path(style, dir, b);
    assert(p == front + a);
    assert(q == front + b);
    assert(p.skip(p.len() - a.len()) =~= a);
    if p == q {
        assert(a =~= p.skip(front.len() as int));
        assert(b =~= q.skip(front.len() as int));
    }
    assert(dir.push('/') =~= dir + seq!['/']);
    assert(dir.push('\\') =~= dir + seq!['\\']);
}

/// On Unix the directory of a file that is named in a directory is that directory, whatever the
/// file is named; a path that is a name alone is in the empty path.
pub proof fn files_are_in_their_directories(dir: Seq<char>, name: Seq<char>)
    requires
        trim_path(Grammar::Unix, dir, body_start(PathStyle::Unix, dir)) == dir,
        is_unix_name(name),
    ensures
        directory_of(
            PathView {
                style: PathStyle::Unix,
                text: if dir.len() == 0 || dir.last() == '/' {
                    dir + name
                } else {
                    dir + seq!['/'] + name
                },
            },
        ) == (PathView { style: PathStyle::Unix, text: dir }),
        directory_of(PathView { style: PathStyle::Unix, text: name }).text
            == Seq::<char>::empty(),
        directory_of(PathView { style: PathStyle::Unix, text: seq!['/'] }).text == seq!['.'],
        directory_of(PathView { style: PathStyle::Unix, text: Seq::empty() }).text == seq!['.'],
{
    names_come_last(PathStyle::Unix, dir, name, name);
    names_join_on_unix(dir, name);
    parent_of_joined(PathStyle::Unix, dir, name);
    let none = Seq::<char>::empty();
    names_come_last(PathStyle::Unix, none, name, name);
    names_join_on_unix(none, name);
    parent_of_joined(PathStyle::Unix, none, name);
    assert(none + name =~= name);
}

proof fn lemma_run_end_at(g: Grammar, p: Seq<char>, i: int, end: int)
    requires
        0 <= i <= end <= p.len(),
        forall|k: int| i <= k < end ==> !separates(g, #[trigger] p[k]),
        end < p.len() ==> separates(g, p[end]),
    ensures
        run_end(g, p, i) == end,
    decreases end - i,
{
    if i < end {
        lemma_run_end_at(g, p, i + 1, end);
    }
}

/// What Windows takes for the prefix of a path: a drive's letter and colon; a server and a share
/// behind two separators.
#[verifier::rlimit(30)]
pub proof fn windows_prefixes(letter: char, server: Seq<char>, share: Seq<char>, rest: Seq<char>)
    requires
        'a' <= letter && letter <= 'z' || 'A' <= letter && letter <= 'Z',
        server.len() > 0,
        share.len() > 0,
        server != seq!['.'],
        server != seq!['?'],
        forall|i: int| 0 <= i < server.len() ==> !separates(Grammar::Windows, #[trigger] server[i]),
        forall|i: int| 0 <= i < share.len() ==> !separates(Grammar::Windows, #[trigger] share[i]),
        rest.len() > 0 ==> separates(Grammar::Windows, rest[0]),
    ensures
        prefix_end(PathStyle::Windows, seq![letter, ':'] + rest) == 2,
        prefix_end(PathStyle::Windows, seq!['\\', '\\'] + server + seq!['\\'] + share + rest) == 3
            + server.len() + share.len(),
        prefix_end(PathStyle::Unix, rest) == 0,
{
    let g = Grammar::Windows;
    let p = seq!['\\', '\\'] + server + seq!['\\'] + share + rest;
    let a = 2 + server.len() as int;
    let b = a + 1 + share.len();
    assert forall|k: int| 2 <= k < a implies !separates(g, #[trigger] p[k]) by {
        assert(p[k] == server[k - 2]);
    }
    assert forall|k: int| a + 1 <= k < b implies !separates(g, #[trigger] p[k]) by {
        assert(p[k] == share[k - a - 1]);
    }
    assert(p[a] == '\\');
    assert(b < p.len() ==> p[b] == rest[0]);
    lemma_run_end_at(g, p, 2, a);
    lemma_run_end_at(g, p, a + 1, b);
    assert(p[2] == server[0]);
    if server.len() == 1 {
        assert(server[0] == '.' ==> server =~= seq!['.']);
        assert(server[0] == '?' ==> server =~= seq!['?']);
    } else {
        assert(p[3] == server[1]);
        assert(!separates(g, server[1]));
    }
    let q = seq![letter, ':'] + rest;
    assert(q[0] == letter && q[1] == ':');
}

/// On Unix separators and dots at the end of a path stand for nothing.
pub proof fn trailing_separators_stand_for_nothing(p: Seq<char>)
    ensures
        parent_path(PathStyle::Unix, p.push('/')) == parent_path(PathStyle::Unix, p),
        parent_path(PathStyle::Unix, p.push('/').push('.')) == parent_path(PathStyle::Unix, p),
{
    let g = Grammar::Unix;
    let floor = body_start(PathStyle::Unix, p);
    let slash = p.push('/');
    let dot = slash.push('.');
    assert(slash.drop_last() =~= p);
    assert(dot.drop_last() =~= slash);
    if p.len() > 0 {
        assert(slash[0] == p[0] && dot[0] == p[0]);
        if p.len() > 1 {
            assert(slash[1] == p[1] && dot[1] == p[1]);
        }
        assert(body_start(PathStyle::Unix, slash) == floor);
        assert(body_start(PathStyle::Unix, dot) == floor);
        assert(trim_path(g, slash, floor) == trim_path(g, p, floor));
        lemma_name_start_at(g, dot, floor, dot.len() as int, dot.len() - 1);
        assert(trim_path(g, dot, floor) == trim_path(g, slash, floor));
    } else {
        lemma_name_start_at(g, dot, 1, 2, 1);
        assert(trim_path(g, dot, 1) == trim_path(g, slash, 1));
    }
}

} // verus!

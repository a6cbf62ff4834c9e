//! Commands run in the simulated terminal's shell: where a `cd` leaves the
//! session, what text the shell is given, and the cleanup of what it prints.
use vstd::prelude::*;
use crate::ansi::{lemma_split_on_nonempty, split_on, split_ranges};
use crate::text::{chars_of, push_char, string_from_chars};

verus! {

/// What a terminal shows of a line that carriage returns overwrite: the text
/// after the last `\r`.
pub open spec fn after_last_cr(line: Seq<char>) -> Seq<char> {
    split_on(line, '\r').last()
}

/// The visible, non-empty lines among `lines`, in order.
pub open spec fn kept_lines(lines: Seq<Seq<char>>) -> Seq<Seq<char>>
    decreases lines.len(),
{
    if lines.len() == 0 {
        Seq::<Seq<char>>::empty()
    } else {
        let rest = kept_lines(lines.drop_last());
        let v = after_last_cr(lines.last());
        if v.len() > 0 {
            rest.push(v)
        } else {
            rest
        }
    }
}

/// The lines joined with `\n` between them.
pub open spec fn join_lines(ls: Seq<Seq<char>>) -> Seq<char>
    decreases ls.len(),
{
    if ls.len() == 0 {
        Seq::<char>::empty()
    } else if ls.len() == 1 {
        ls[0]
    } else {
        join_lines(ls.drop_last()) + seq!['\n'] + ls.last()
    }
}

/// The output with each line reduced to what follows its last carriage
/// return, and with empty lines dropped.
pub open spec fn sanitize_spec(output: Seq<char>) -> Seq<char> {
    join_lines(kept_lines(split_on(output, '\n')))
}

proof fn lemma_join_nonempty(ls: Seq<Seq<char>>)
    requires
        forall|i: int| 0 <= i < ls.len() ==> #[trigger] ls[i].len() > 0,
    ensures
        (join_lines(ls).len() == 0) == (ls.len() == 0),
    decreases ls.len(),
{
    if ls.len() > 1 {
        lemma_join_nonempty(ls.drop_last());
    }
}

proof fn lemma_kept_nonempty(lines: Seq<Seq<char>>)
    ensures
        forall|i: int| 0 <= i < kept_lines(lines).len() ==> #[trigger] kept_lines(lines)[i].len()
            > 0,
    decreases lines.len(),
{
    if lines.len() > 0 {
        let rest = kept_lines(lines.drop_last());
        lemma_kept_nonempty(lines.drop_last());
        let v = after_last_cr(lines.last());
        if v.len() > 0 {
            assert forall|i: int| 0 <= i < rest.push(v).len() implies #[trigger] rest.push(v)[i].len()
                > 0 by {
                if i < rest.len() {
                    assert(rest.push(v)[i] == rest[i]);
                }
            }
        }
    }
}

/// Keep, of every line of captured output, only what a terminal would show
/// after carriage returns, and drop the lines that end up empty.
pub fn sanitize_output(output: &str) -> (r: String)
    ensures
        r@ == sanitize_spec(output@),
{
    let cv = chars_of(output);
    let cs = cv.as_slice();
    let n = cs.len();
    assert(cs@.subrange(0, n as int) =~= cs@);
    let lines = split_ranges(cs, 0, n, '\n');
    let ghost sl = split_on(cs@, '\n');
    let mut result: Vec<char> = Vec::new();
    let mut i: usize = 0;
    assert(sl.take(0) =~= Seq::<Seq<char>>::empty());
    while i < lines.len()
        invariant
            n == cs@.len(),
            sl == split_on(cs@, '\n'),
            lines@.len() == sl.len(),
            forall|k: int|
                0 <= k < lines@.len() ==> {
                    &&& 0 <= (#[trigger] lines@[k]).0 <= lines@[k].1 <= n
                    &&& cs@.subrange(lines@[k].0 as int, lines@[k].1 as int) == sl[k]
                },
            i <= lines@.len(),
            result@ == join_lines(kept_lines(sl.take(i as int))),
        decreases lines@.len() - i,
    {
        let (lo, hi) = lines[i];
        assert(cs@.subrange(lo as int, hi as int) == sl[i as int]);
        let parts = split_ranges(cs, lo, hi, '\r');
        proof {
            crate::ansi::lemma_split_on_nonempty(cs@.subrange(lo as int, hi as int), '\r');
            lemma_kept_nonempty(sl.take(i as int));
            lemma_join_nonempty(kept_lines(sl.take(i as int)));
        }
        let (plo, phi) = parts[parts.len() - 1];
        let ghost last = cs@.subrange(plo as int, phi as int);
        assert(last == after_last_cr(sl[i as int]));
        assert(sl.take(i + 1).drop_last() =~= sl.take(i as int));
        assert(sl.take(i + 1).last() == sl[i as int]);
        if phi > plo {
            let ghost prev = result@;
            let ghost kept = kept_lines(sl.take(i as int));
            if result.len() > 0 {
                result.push('\n');
            }
            let mut j = plo;
            while j < phi
                invariant
                    plo <= j <= phi <= n,
                    n == cs@.len(),
                    result@ == (if prev.len() > 0 {
                        prev + seq!['\n']
                    } else {
                        prev
                    }) + cs@.subrange(plo as int, j as int),
                decreases phi - j,
            {
                result.push(cs[j]);
                j = j + 1;
            }
            assert(kept_lines(sl.take(i + 1)) == kept.push(last));
            proof {
                if prev.len() > 0 {
                    assert(kept.push(last).drop_last() =~= kept);
                    assert(result@ =~= join_lines(kept.push(last)));
                } else {
                    assert(result@ =~= join_lines(kept.push(last)));
                }
            }
        } else {
            assert(last.len() == 0);
        }
        i = i + 1;
    }
    assert(sl.take(lines@.len() as int) =~= sl);
    string_from_chars(result.as_slice())
}


/// Splitting at a separator that sits between `a` and `b` gives the parts of
/// `a` followed by the parts of `b`.
proof fn lemma_split_on_concat(a: Seq<char>, b: Seq<char>, sep: char)
    ensures
        split_on(a + seq![sep] + b, sep) == split_on(a, sep) + split_on(b, sep),
    decreases b.len(),
{
    let s = a + seq![sep] + b;
    if b.len() == 0 {
        assert(s.drop_last() =~= a);
        assert(s.last() == sep);
        assert(split_on(b, sep) =~= seq![Seq::<char>::empty()]);
        assert(split_on(a, sep).push(Seq::<char>::empty()) =~= split_on(a, sep) + seq![
            Seq::<char>::empty(),
        ]);
    } else {
        let b0 = b.drop_last();
        let c = b.last();
        lemma_split_on_concat(a, b0, sep);
        lemma_split_on_nonempty(b0, sep);
        lemma_split_on_nonempty(a, sep);
        assert(s.drop_last() =~= a + seq![sep] + b0);
        assert(s.last() == c);
        let pa = split_on(a, sep);
        let pb = split_on(b0, sep);
        if c == sep {
            assert((pa + pb).push(Seq::<char>::empty()) =~= pa + pb.push(Seq::<char>::empty()));
        } else {
            assert((pa + pb).last() == pb.last());
            assert((pa + pb).update((pa + pb).len() - 1, pb.last().push(c)) =~= pa + pb.update(
                pb.len() - 1,
                pb.last().push(c),
            ));
        }
    }
}

/// A string without the separator is a single part.
proof fn lemma_split_on_none(s: Seq<char>, sep: char)
    requires
        !s.contains(sep),
    ensures
        split_on(s, sep) == seq![s],
    decreases s.len(),
{
    if s.len() > 0 {
        assert(!s.drop_last().contains(sep)) by {
            if s.drop_last().contains(sep) {
                let k = choose|k: int| 0 <= k < s.drop_last().len() && s.drop_last()[k] == sep;
                assert(s[k] == sep);
            }
        }
        lemma_split_on_none(s.drop_last(), sep);
        assert(s.last() != sep) by {
            assert(s[s.len() - 1] == s.last());
        }
        assert(s.drop_last().push(s.last()) =~= s);
    } else {
        assert(s =~= Seq::<char>::empty());
    }
}

/// No part of a split holds the separator, and every character of a part
/// comes from the split string.
proof fn lemma_split_on_parts(s: Seq<char>, sep: char)
    ensures
        forall|k: int|
            0 <= k < split_on(s, sep).len() ==> !(#[trigger] split_on(s, sep)[k]).contains(sep),
        forall|k: int, c: char|
            0 <= k < split_on(s, sep).len() && #[trigger] split_on(s, sep)[k].contains(c)
                ==> s.contains(c),
    decreases s.len(),
{
    if s.len() > 0 {
        let s0 = s.drop_last();
        lemma_split_on_parts(s0, sep);
        lemma_split_on_nonempty(s0, sep);
        let p0 = split_on(s0, sep);
        let p = split_on(s, sep);
        assert forall|c: char| s0.contains(c) implies s.contains(c) by {
            let k = choose|k: int| 0 <= k < s0.len() && s0[k] == c;
            assert(s[k] == c);
        }
        assert(s.contains(s.last())) by {
            assert(s[s.len() - 1] == s.last());
        }
        if s.last() == sep {
            assert forall|k: int| 0 <= k < p.len() implies !(#[trigger] p[k]).contains(sep) by {
                if k < p0.len() {
                    assert(p[k] == p0[k]);
                } else {
                    assert(p[k] =~= Seq::<char>::empty());
                }
            }
            assert forall|k: int, c: char| 0 <= k < p.len() && #[trigger] p[k].contains(c)
                implies s.contains(c) by {
                if k < p0.len() {
                    assert(p[k] == p0[k]);
                } else {
                    assert(p[k] =~= Seq::<char>::empty());
                }
            }
        } else {
            let last = p0.last().push(s.last());
            assert forall|k: int| 0 <= k < p.len() implies !(#[trigger] p[k]).contains(sep) by {
                if k < p0.len() - 1 {
                    assert(p[k] == p0[k]);
                } else {
                    assert(p[k] == last);
                    assert(!p0[p0.len() - 1].contains(sep));
                    if last.contains(sep) {
                        let j = choose|j: int| 0 <= j < last.len() && last[j] == sep;
                        if j < last.len() - 1 {
                            assert(p0.last()[j] == sep);
                        }
                    }
                }
            }
            assert forall|k: int, c: char| 0 <= k < p.len() && #[trigger] p[k].contains(c)
                implies s.contains(c) by {
                if k < p0.len() - 1 {
                    assert(p[k] == p0[k]);
                } else {
                    assert(p[k] == last);
                    let j = choose|j: int| 0 <= j < last.len() && last[j] == c;
                    if j < last.len() - 1 {
                        assert(p0[p0.len() - 1][j] == c);
                        assert(p0[p0.len() - 1].contains(c));
                    }
                }
            }
        }
    }
}

/// Joining lines that hold no line feed and splitting at line feeds gives
/// the lines back.
proof fn lemma_split_join(ls: Seq<Seq<char>>)
    requires
        ls.len() > 0,
        forall|k: int| 0 <= k < ls.len() ==> !(#[trigger] ls[k]).contains('\n'),
    ensures
        split_on(join_lines(ls), '\n') == ls,
    decreases ls.len(),
{
    if ls.len() == 1 {
        lemma_split_on_none(ls[0], '\n');
        assert(seq![ls[0]] =~= ls);
    } else {
        let init = ls.drop_last();
        lemma_split_join(init);
        lemma_split_on_concat(join_lines(init), ls.last(), '\n');
        lemma_split_on_none(ls.last(), '\n');
        assert(init + seq![ls.last()] =~= ls);
    }
}

/// A line without carriage returns shows as itself.
proof fn lemma_after_last_cr_plain(line: Seq<char>)
    requires
        !line.contains('\r'),
    ensures
        after_last_cr(line) == line,
{
    lemma_split_on_none(line, '\r');
}

/// The kept lines hold neither line feeds nor carriage returns, and none is empty.
proof fn lemma_kept_lines_plain(lines: Seq<Seq<char>>)
    requires
        forall|k: int| 0 <= k < lines.len() ==> !(#[trigger] lines[k]).contains('\n'),
    ensures
        forall|k: int|
            0 <= k < kept_lines(lines).len() ==> {
                &&& !(#[trigger] kept_lines(lines)[k]).contains('\n')
                &&& !kept_lines(lines)[k].contains('\r')
                &&& kept_lines(lines)[k].len() > 0
            },
    decreases lines.len(),
{
    if lines.len() > 0 {
        let init = lines.drop_last();
        assert forall|k: int| 0 <= k < init.len() implies !(#[trigger] init[k]).contains('\n') by {
            assert(init[k] == lines[k]);
        }
        lemma_kept_lines_plain(init);
        let line = lines.last();
        assert(!line.contains('\n')) by {
            assert(lines[lines.len() - 1] == line);
        }
        lemma_split_on_parts(line, '\r');
        lemma_split_on_nonempty(line, '\r');
        let parts = split_on(line, '\r');
        let v = after_last_cr(line);
        assert(v == parts[parts.len() - 1]);
        assert(!v.contains('\r'));
        assert(!v.contains('\n')) by {
            if v.contains('\n') {
                assert(parts[parts.len() - 1].contains('\n'));
            }
        }
        let rest = kept_lines(init);
        if v.len() > 0 {
            assert forall|k: int| 0 <= k < rest.push(v).len() implies {
                &&& !(#[trigger] rest.push(v)[k]).contains('\n')
                &&& !rest.push(v)[k].contains('\r')
                &&& rest.push(v)[k].len() > 0
            } by {
                if k < rest.len() {
                    assert(rest.push(v)[k] == rest[k]);
                }
            }
        }
    }
}

/// Lines that are already plain and non-empty are all kept as they are.
proof fn lemma_kept_lines_of_plain(ls: Seq<Seq<char>>)
    requires
        forall|k: int|
            0 <= k < ls.len() ==> {
                &&& !(#[trigger] ls[k]).contains('\r')
                &&& ls[k].len() > 0
            },
    ensures
        kept_lines(ls) == ls,
    decreases ls.len(),
{
    if ls.len() > 0 {
        let init = ls.drop_last();
        assert forall|k: int| 0 <= k < init.len() implies {
            &&& !(#[trigger] init[k]).contains('\r')
            &&& init[k].len() > 0
        } by {
            assert(init[k] == ls[k]);
        }
        lemma_kept_lines_of_plain(init);
        assert(!ls.last().contains('\r') && ls.last().len() > 0) by {
            assert(ls[ls.len() - 1] == ls.last());
        }
        lemma_after_last_cr_plain(ls.last());
        assert(init.push(ls.last()) =~= ls);
    }
}

/// The first and last characters of joined lines, and the absence of
/// carriage returns in them.
proof fn lemma_join_shape(ls: Seq<Seq<char>>)
    requires
        ls.len() > 0,
        forall|k: int|
            0 <= k < ls.len() ==> {
                &&& !(#[trigger] ls[k]).contains('\n')
                &&& !ls[k].contains('\r')
                &&& ls[k].len() > 0
            },
    ensures
        join_lines(ls).len() > 0,
        join_lines(ls)[0] == ls[0][0],
        join_lines(ls).last() == ls.last().last(),
        !join_lines(ls).contains('\r'),
    decreases ls.len(),
{
    if ls.len() > 1 {
        let init = ls.drop_last();
        assert forall|k: int| 0 <= k < init.len() implies {
            &&& !(#[trigger] init[k]).contains('\n')
            &&& !init[k].contains('\r')
            &&& init[k].len() > 0
        } by {
            assert(init[k] == ls[k]);
        }
        lemma_join_shape(init);
        let a = join_lines(init);
        let last = ls.last();
        assert(!last.contains('\r')) by {
            assert(ls[ls.len() - 1] == last);
        }
        let j = a + seq!['\n'] + last;
        assert(j[0] == a[0]);
        assert(j.last() == last.last());
        assert(!j.contains('\r')) by {
            if j.contains('\r') {
                let m = choose|m: int| 0 <= m < j.len() && j[m] == '\r';
                if m < a.len() {
                    assert(a[m] == '\r');
                } else if m > a.len() {
                    assert(last[m - a.len() - 1] == '\r');
                }
            }
        }
    }
}

/// What cleaning leaves of any output: no carriage return, and, unless it
/// is empty, lines that are all non-empty, so that it neither starts nor
/// ends with a line feed.
pub proof fn lemma_sanitize_clean(output: Seq<char>)
    ensures
        !sanitize_spec(output).contains('\r'),
        sanitize_spec(output).len() > 0 ==> {
            &&& sanitize_spec(output)[0] != '\n'
            &&& sanitize_spec(output).last() != '\n'
            &&& forall|k: int|
                0 <= k < split_on(sanitize_spec(output), '\n').len() ==> (#[trigger] split_on(
                    sanitize_spec(output),
                    '\n',
                )[k]).len() > 0
        },
{
    let lines = split_on(output, '\n');
    lemma_split_on_parts(output, '\n');
    let kept = kept_lines(lines);
    lemma_kept_lines_plain(lines);
    if kept.len() == 0 {
        assert(join_lines(kept) =~= Seq::<char>::empty());
    } else {
        lemma_join_shape(kept);
        lemma_split_join(kept);
        let r = join_lines(kept);
        assert(kept[0].len() > 0 && !kept[0].contains('\n'));
        assert(kept[0][0] != '\n') by {
            if kept[0][0] == '\n' {
                assert(kept[0].contains('\n'));
            }
        }
        let lst = kept[kept.len() - 1];
        assert(lst.len() > 0 && !lst.contains('\n'));
        assert(lst.last() != '\n') by {
            if lst.last() == '\n' {
                assert(lst[lst.len() - 1] == '\n');
            }
        }
    }
}

/// Cleaning up output twice changes nothing more than cleaning it up once.
pub proof fn lemma_sanitize_idempotent(output: Seq<char>)
    ensures
        sanitize_spec(sanitize_spec(output)) == sanitize_spec(output),
{
    let lines = split_on(output, '\n');
    lemma_split_on_parts(output, '\n');
    let kept = kept_lines(lines);
    lemma_kept_lines_plain(lines);
    if kept.len() == 0 {
        assert(join_lines(kept) =~= Seq::<char>::empty());
        assert(split_on(Seq::<char>::empty(), '\n') == seq![Seq::<char>::empty()]);
        let one = seq![Seq::<char>::empty()];
        assert(one.drop_last() =~= Seq::<Seq<char>>::empty());
        assert(split_on(Seq::<char>::empty(), '\r') == seq![Seq::<char>::empty()]);
        assert(one.last() == Seq::<char>::empty());
        assert(after_last_cr(one.last()) =~= Seq::<char>::empty());
        assert(kept_lines(one.drop_last()) == Seq::<Seq<char>>::empty());
        assert(kept_lines(one) =~= Seq::<Seq<char>>::empty());
    } else {
        lemma_split_join(kept);
        lemma_kept_lines_of_plain(kept);
    }
}

/// Unicode `White_Space` characters, those that `char::is_whitespace`
/// accepts and `str::trim` removes.
pub open spec fn is_white_space(c: char) -> bool {
    let u = c as u32;
    ||| 0x9 <= u <= 0xd
    ||| u == 0x20
    ||| u == 0x85
    ||| u == 0xa0
    ||| u == 0x1680
    ||| 0x2000 <= u <= 0x200a
    ||| u == 0x2028
    ||| u == 0x2029
    ||| u == 0x202f
    ||| u == 0x205f
    ||| u == 0x3000
}

/// Whether `c` is Unicode white space.
pub fn is_white_space_char(c: char) -> (b: bool)
    ensures
        b == is_white_space(c),
{
    let u = c as u32;
    (0x9 <= u && u <= 0xd) || u == 0x20 || u == 0x85 || u == 0xa0 || u == 0x1680 || (0x2000 <= u
        && u <= 0x200a) || u == 0x2028 || u == 0x2029 || u == 0x202f || u == 0x205f || u == 0x3000
}

/// `s` without its leading white space.
pub open spec fn trim_start(s: Seq<char>) -> Seq<char>
    decreases s.len(),
{
    if s.len() > 0 && is_white_space(s[0]) {
        trim_start(s.drop_first())
    } else {
        s
    }
}

/// `s` without its trailing white space.
pub open spec fn trim_end(s: Seq<char>) -> Seq<char>
    decreases s.len(),
{
    if s.len() > 0 && is_white_space(s.last()) {
        trim_end(s.drop_last())
    } else {
        s
    }
}

/// `s` without leading and trailing white space, as `str::trim` gives it.
pub open spec fn trim(s: Seq<char>) -> Seq<char> {
    trim_end(trim_start(s))
}

/// The part of `cs[lo..hi]` left by trimming white space, as a range of `cs`.
fn trim_range(cs: &[char], lo: usize, hi: usize) -> (r: (usize, usize))
    requires
        lo <= hi <= cs@.len(),
    ensures
        lo <= r.0 <= r.1 <= hi,
        cs@.subrange(r.0 as int, r.1 as int) == trim(cs@.subrange(lo as int, hi as int)),
{
    let mut i = lo;
    while i < hi && is_white_space_char(cs[i])
        invariant
            lo <= i <= hi <= cs@.len(),
            trim_start(cs@.subrange(lo as int, hi as int)) == trim_start(
                cs@.subrange(i as int, hi as int),
            ),
        decreases hi - i,
    {
        assert(cs@.subrange(i as int, hi as int).drop_first() =~= cs@.subrange(i + 1, hi as int));
        i = i + 1;
    }
    assert(trim_start(cs@.subrange(lo as int, hi as int)) == cs@.subrange(i as int, hi as int));
    let mut j = hi;
    while j > i && is_white_space_char(cs[j - 1])
        invariant
            lo <= i <= j <= hi <= cs@.len(),
            trim_end(cs@.subrange(i as int, hi as int)) == trim_end(cs@.subrange(i as int, j as int)),
        decreases j - i,
    {
        assert(cs@.subrange(i as int, j as int).drop_last() =~= cs@.subrange(i as int, j - 1));
        j = j - 1;
    }
    (i, j)
}

/// The working directory of a session, relative to its base directory, after
/// walking the path `parts` from `cwd`: empty parts and `.` stay, `..` goes
/// up (not above the base), anything else goes down.
pub open spec fn walk_path(cwd: Seq<Seq<char>>, parts: Seq<Seq<char>>) -> Seq<Seq<char>>
    decreases parts.len(),
{
    if parts.len() == 0 {
        cwd
    } else {
        let prev = walk_path(cwd, parts.drop_last());
        let p = parts.last();
        if p.len() == 0 || p == seq!['.'] {
            prev
        } else if p == seq!['.', '.'] {
            if prev.len() > 0 {
                prev.drop_last()
            } else {
                prev
            }
        } else {
            prev.push(p)
        }
    }
}

/// Whether a (trimmed) command is a `cd`.
pub open spec fn is_cd(t: Seq<char>) -> bool {
    t.len() >= 3 && t[0] == 'c' && t[1] == 'd' && t[2] == ' '
}

/// The directory that a `cd` command names.
pub open spec fn cd_target(cmd: Seq<char>) -> Seq<char> {
    trim(trim(cmd).skip(3))
}

/// The working directory after `cd target`: an empty target, a comment and
/// `-` leave it as it is; an absolute target starts from the base directory.
pub open spec fn cwd_after_cd(cwd: Seq<Seq<char>>, target: Seq<char>) -> Seq<Seq<char>> {
    if target.len() == 0 || target[0] == '#' || target == seq!['-'] {
        cwd
    } else if target[0] == '/' {
        walk_path(Seq::empty(), split_on(target, '/'))
    } else {
        walk_path(cwd, split_on(target, '/'))
    }
}

/// A path component that names a directory: not empty, not `.` or `..`,
/// without a slash.
pub open spec fn plain_component(p: Seq<char>) -> bool {
    &&& p.len() > 0
    &&& p != seq!['.']
    &&& p != seq!['.', '.']
    &&& forall|i: int| 0 <= i < p.len() ==> p[i] != '/'
}

proof fn lemma_split_parts_lack_sep(s: Seq<char>, sep: char)
    ensures
        forall|k: int, i: int|
            0 <= k < split_on(s, sep).len() && 0 <= i < split_on(s, sep)[k].len() ==> split_on(
                s,
                sep,
            )[k][i] != sep,
    decreases s.len(),
{
    if s.len() > 0 {
        lemma_split_parts_lack_sep(s.drop_last(), sep);
        lemma_split_on_nonempty(s.drop_last(), sep);
        let parts = split_on(s.drop_last(), sep);
        if s.last() != sep {
            let last = parts.last().push(s.last());
            assert forall|k: int, i: int|
                0 <= k < split_on(s, sep).len() && 0 <= i < split_on(s, sep)[k].len() implies split_on(
                s,
                sep,
            )[k][i] != sep by {
                if k == parts.len() - 1 {
                    if i < parts.last().len() {
                        assert(last[i] == parts.last()[i]);
                    }
                } else {
                    assert(split_on(s, sep)[k] == parts[k]);
                }
            }
        } else {
            assert forall|k: int, i: int|
                0 <= k < split_on(s, sep).len() && 0 <= i < split_on(s, sep)[k].len() implies split_on(
                s,
                sep,
            )[k][i] != sep by {
                if k < parts.len() {
                    assert(split_on(s, sep)[k] == parts[k]);
                }
            }
        }
    }
}

proof fn lemma_split_without_sep(s: Seq<char>, sep: char)
    requires
        forall|i: int| 0 <= i < s.len() ==> s[i] != sep,
    ensures
        split_on(s, sep) == seq![s],
    decreases s.len(),
{
    if s.len() > 0 {
        lemma_split_without_sep(s.drop_last(), sep);
        assert(s.drop_last().push(s.last()) =~= s);
        assert(seq![s.drop_last()].update(0, s.drop_last().push(s.last())) =~= seq![s]);
    } else {
        assert(s =~= Seq::<char>::empty());
    }
}

proof fn lemma_walk_keeps_plain(cwd: Seq<Seq<char>>, parts: Seq<Seq<char>>)
    requires
        forall|k: int| 0 <= k < cwd.len() ==> plain_component(#[trigger] cwd[k]),
        forall|k: int, i: int| 0 <= k < parts.len() && 0 <= i < parts[k].len() ==> parts[k][i] != '/',
    ensures
        forall|k: int|
            0 <= k < walk_path(cwd, parts).len() ==> plain_component(#[trigger] walk_path(cwd, parts)[k]),
    decreases parts.len(),
{
    if parts.len() > 0 {
        let init = parts.drop_last();
        assert forall|k: int, i: int| 0 <= k < init.len() && 0 <= i < init[k].len() implies init[k][i]
            != '/' by {
            assert(init[k] == parts[k]);
        }
        lemma_walk_keeps_plain(cwd, init);
        let prev = walk_path(cwd, init);
        let p = parts.last();
        assert forall|i: int| 0 <= i < p.len() implies p[i] != '/' by {
            assert(p == parts[parts.len() - 1]);
        }
        assert forall|k: int| 0 <= k < walk_path(cwd, parts).len() implies plain_component(
            #[trigger] walk_path(cwd, parts)[k],
        ) by {
            if p.len() == 0 || p == seq!['.'] {
            } else if p == seq!['.', '.'] {
                if prev.len() > 0 {
                    assert(prev.drop_last()[k] == prev[k]);
                }
            } else {
                if k < prev.len() {
                    assert(prev.push(p)[k] == prev[k]);
                }
            }
        }
    }
}

/// The working directory of a session only ever holds plain directory
/// names, whatever `cd` is given.
pub proof fn lemma_cd_keeps_components_plain(cwd: Seq<Seq<char>>, target: Seq<char>)
    requires
        forall|k: int| 0 <= k < cwd.len() ==> plain_component(#[trigger] cwd[k]),
    ensures
        forall|k: int|
            0 <= k < cwd_after_cd(cwd, target).len() ==> plain_component(
                #[trigger] cwd_after_cd(cwd, target)[k],
            ),
{
    lemma_split_parts_lack_sep(target, '/');
    lemma_walk_keeps_plain(cwd, split_on(target, '/'));
    lemma_walk_keeps_plain(Seq::empty(), split_on(target, '/'));
}

/// `cd name` followed by `cd ..` comes back to the directory it started
/// from, for a directory name that is not a comment or `-`.
pub proof fn lemma_cd_into_and_back(cwd: Seq<Seq<char>>, name: Seq<char>)
    requires
        plain_component(name),
        name[0] != '#',
        name != seq!['-'],
    ensures
        cwd_after_cd(cwd_after_cd(cwd, name), seq!['.', '.']) == cwd,
{
    lemma_split_without_sep(name, '/');
    let dots = seq!['.', '.'];
    lemma_split_without_sep(dots, '/');
    assert(name[0] != '/');
    assert(seq![name].drop_last() =~= Seq::<Seq<char>>::empty());
    assert(walk_path(cwd, Seq::<Seq<char>>::empty()) == cwd);
    assert(walk_path(cwd, seq![name]) == cwd.push(name));
    let there = cwd_after_cd(cwd, name);
    assert(there == cwd.push(name));
    assert(seq![dots].drop_last() =~= Seq::<Seq<char>>::empty());
    assert(dots != seq!['-']) by {
        assert(dots.len() != seq!['-'].len());
    }
    assert(walk_path(there, Seq::<Seq<char>>::empty()) == there);
    assert(walk_path(there, seq![dots]) == there.drop_last());
    assert(cwd.push(name).drop_last() =~= cwd);
}

/// The state that a terminal session keeps between commands.
pub struct ShellSession {
    /// The working directory, as path components below the session's base
    /// directory.
    pub cwd: Vec<String>,
    /// Whether a command has already been run with the startup
    /// configuration in front of it.
    pub startup_done: bool,
}

/// The characters of each string.
pub open spec fn components_view(v: Seq<String>) -> Seq<Seq<char>> {
    v.map_values(|s: String| s@)
}

/// What to do with a typed command.
pub enum CommandStep {
    /// The session handled it (a `cd`); it prints nothing.
    Handled,
    /// Run this text with the shell in the session's working directory.
    Run(String),
}

impl ShellSession {
    /// A session in its base directory that has not run its startup
    /// configuration.
    pub fn new() -> (s: Self)
        ensures
            s.cwd@.len() == 0,
            !s.startup_done,
    {
        ShellSession { cwd: Vec::new(), startup_done: false }
    }
}

/// The characters `cs[lo..hi]` as a string.
fn string_of_range(cs: &[char], lo: usize, hi: usize) -> (s: String)
    requires
        lo <= hi <= cs@.len(),
    ensures
        s@ == cs@.subrange(lo as int, hi as int),
{
    let mut s = String::new();
    let mut i = lo;
    while i < hi
        invariant
            lo <= i <= hi <= cs@.len(),
            s@ == cs@.subrange(lo as int, i as int),
        decreases hi - i,
    {
        push_char(&mut s, cs[i]);
        assert(cs@.subrange(lo as int, i + 1) =~= cs@.subrange(lo as int, i as int).push(cs@[i as int]));
        i = i + 1;
    }
    s
}

/// Walk `session.cwd` along the parts of `cs[lo..hi]` between slashes.
fn walk_parts(session: &mut ShellSession, cs: &[char], lo: usize, hi: usize)
    requires
        lo <= hi <= cs@.len(),
    ensures
        final(session).startup_done == old(session).startup_done,
        components_view(final(session).cwd@) == walk_path(
            components_view(old(session).cwd@),
            split_on(cs@.subrange(lo as int, hi as int), '/'),
        ),
{
    let parts = split_ranges(cs, lo, hi, '/');
    let ghost sp = split_on(cs@.subrange(lo as int, hi as int), '/');
    let ghost start = components_view(session.cwd@);
    let mut k: usize = 0;
    assert(sp.take(0) =~= Seq::<Seq<char>>::empty());
    while k < parts.len()
        invariant
            lo <= hi <= cs@.len(),
            sp == split_on(cs@.subrange(lo as int, hi as int), '/'),
            parts@.len() == sp.len(),
            forall|m: int|
                0 <= m < parts@.len() ==> {
                    &&& lo <= (#[trigger] parts@[m]).0 <= parts@[m].1 <= hi
                    &&& cs@.subrange(parts@[m].0 as int, parts@[m].1 as int) == sp[m]
                },
            k <= parts@.len(),
            session.startup_done == old(session).startup_done,
            components_view(session.cwd@) == walk_path(start, sp.take(k as int)),
        decreases parts@.len() - k,
    {
        let (a, b) = parts[k];
        let ghost part = cs@.subrange(a as int, b as int);
        assert(part == sp[k as int]);
        assert(sp.take(k + 1).drop_last() =~= sp.take(k as int));
        assert(sp.take(k + 1).last() == part);
        let ghost prev = components_view(session.cwd@);
        if b == a || (b - a == 1 && cs[a] == '.') {
            assert(part.len() == 0 || part =~= seq!['.']);
        } else if b - a == 2 && cs[a] == '.' && cs[a + 1] == '.' {
            assert(part =~= seq!['.', '.']);
            if session.cwd.len() > 0 {
                session.cwd.pop();
                assert(components_view(session.cwd@) =~= prev.drop_last());
            }
        } else {
            assert(part.len() != 0 && part != seq!['.']) by {
                if part =~= seq!['.'] {
                    assert(part[0] == cs@[a as int]);
                }
            }
            assert(part != seq!['.', '.']) by {
                if part =~= seq!['.', '.'] {
                    assert(part[0] == cs@[a as int]);
                    assert(part[1] == cs@[a + 1]);
                }
            }
            let name = string_of_range(cs, a, b);
            session.cwd.push(name);
            assert(components_view(session.cwd@) =~= prev.push(part));
        }
        k = k + 1;
    }
    assert(sp.take(parts@.len() as int) =~= sp);
}

/// Decide what a typed command does in a session. A `cd` (after trimming
/// white space) moves the session's working directory and runs nothing;
/// any other command is run as typed, preceded by the startup
/// configuration and a newline when there is one and the session has not
/// run it yet.
pub fn plan_command(session: &mut ShellSession, cmd: &str, startup_config: Option<&str>) -> (step:
    CommandStep)
    ensures
        is_cd(trim(cmd@)) ==> {
            &&& step is Handled
            &&& final(session).startup_done == old(session).startup_done
            &&& components_view(final(session).cwd@) == cwd_after_cd(
                components_view(old(session).cwd@),
                cd_target(cmd@),
            )
        },
        !is_cd(trim(cmd@)) ==> {
            &&& final(session).cwd@ == old(session).cwd@
            &&& final(session).startup_done == (old(session).startup_done
                || startup_config is Some)
            &&& step matches CommandStep::Run(t) && t@ == match startup_config {
                Some(config) => if old(session).startup_done {
                    cmd@
                } else {
                    config@ + seq!['\n'] + cmd@
                },
                None => cmd@,
            }
        },
{
    let cv = chars_of(cmd);
    let cs = cv.as_slice();
    let n = cs.len();
    assert(cs@.subrange(0, n as int) =~= cs@);
    let (tlo, thi) = trim_range(cs, 0, n);
    if thi - tlo >= 3 && cs[tlo] == 'c' && cs[tlo + 1] == 'd' && cs[tlo + 2] == ' ' {
        let ghost t = cs@.subrange(tlo as int, thi as int);
        assert(t.skip(3) =~= cs@.subrange(tlo + 3, thi as int));
        let (lo, hi) = trim_range(cs, tlo + 3, thi);
        let ghost target = cs@.subrange(lo as int, hi as int);
        assert(target == cd_target(cmd@));
        if hi == lo || cs[lo] == '#' || (hi - lo == 1 && cs[lo] == '-') {
            proof {
                if hi - lo == 1 && cs@[lo as int] == '-' {
                    assert(target =~= seq!['-']);
                }
            }
            return CommandStep::Handled;
        }
        assert(target != seq!['-']) by {
            if target =~= seq!['-'] {
                assert(target[0] == cs@[lo as int]);
            }
        }
        if cs[lo] == '/' {
            session.cwd = Vec::new();
            assert(components_view(session.cwd@) =~= Seq::<Seq<char>>::empty());
        }
        walk_parts(session, cs, lo, hi);
        return CommandStep::Handled;
    }
    assert(!is_cd(trim(cmd@)));
    match startup_config {
        Some(config) => {
            if session.startup_done {
                return CommandStep::Run(cmd.to_string());
            }
            session.startup_done = true;
            let mut v = chars_of(config);
            v.push('\n');
            let mut c = chars_of(cmd);
            v.append(&mut c);
            CommandStep::Run(string_from_chars(v.as_slice()))
        },
        None => CommandStep::Run(cmd.to_string()),
    }
}

/// What a command printed, as the terminal shows it: its standard output
/// and then its standard error, each cleaned up, on separate lines.
pub open spec fn combined_output(stdout: Seq<char>, stderr: Seq<char>) -> Seq<char> {
    let out = if stdout.len() > 0 {
        sanitize_spec(stdout)
    } else {
        Seq::empty()
    };
    if stderr.len() == 0 {
        out
    } else if out.len() > 0 {
        out + seq!['\n'] + sanitize_spec(stderr)
    } else {
        sanitize_spec(stderr)
    }
}

/// The text that the terminal captures from a finished command.
pub fn combine_output(stdout: &str, stderr: &str) -> (r: String)
    ensures
        r@ == combined_output(stdout@, stderr@),
{
    let mut v: Vec<char> = Vec::new();
    if !stdout.is_empty() {
        let s = sanitize_output(stdout);
        v = chars_of(s.as_str());
    }
    if !stderr.is_empty() {
        if v.len() > 0 {
            v.push('\n');
        }
        let e = sanitize_output(stderr);
        let mut ev = chars_of(e.as_str());
        v.append(&mut ev);
    }
    string_from_chars(v.as_slice())
}

} // verus!

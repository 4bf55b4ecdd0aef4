//! The lines that `nethogs -t` prints, the identity of the programs in
//! them, and the totals of the monitoring session.

use vstd::prelude::*;
use crate::clock::{Instant, is_clock_instant, millis_of, unix_millis, clock_now, local_rfc3339};
use crate::text::{
    to_chars, string_from_chars, trim, trim_chars, words, split_words, views, join_with,
    join_prefix, last_index_of, find_last, has_prefix, starts_with_chars, sub_chars, parse_i32_spec,
    parse_i32_chars, split_char, split_on, text_lines, split_lines, int_text, padded_decimal_string,
    lemma_last_index_of, is_ws, lemma_parse_i32_int_text, lemma_join_extend_last, lemma_words_of_join,
    lemma_words_concat, lemma_words_single, lemma_join_first, lemma_last_index_after, lemma_trim_plain,
    is_digit,
};

verus! {

broadcast use vstd::string::group_string_axioms;

/// The fields of one line of `nethogs -t`: the program, its pid and the
/// uid it runs as, and the texts of its sent and received rates (KB/s).
pub struct ProcessLine {
    pub program: String,
    pub pid: i32,
    pub uid: i32,
    pub tx_text: String,
    pub rx_text: String,
}

/// A line that carries no process: empty, or a status line of nethogs.
pub open spec fn status_line(t: Seq<char>) -> bool {
    t.len() == 0 || has_prefix(t, "Refreshing"@) || has_prefix(t, "nethogs"@)
}

/// The fields of a `nethogs -t` line, as views: the words of the trimmed
/// line are "PROGRAM/PID/UID SENT RECEIVED", the program part possibly
/// holding spaces and slashes; the pid and uid must be `i32` numbers.
pub open spec fn line_fields(line: Seq<char>) -> Option<(Seq<char>, i32, i32, Seq<char>, Seq<char>)> {
    let t = trim(line);
    if status_line(t) {
        None
    } else {
        let ws = words(t);
        let n = ws.len();
        if n < 3 {
            None
        } else {
            let ident = join_with(ws.take(n - 2), ' ');
            let j1 = last_index_of(ident, '/');
            let j2 = last_index_of(ident.take(j1), '/');
            if j1 < 0 || j2 < 0 {
                None
            } else {
                match (
                    parse_i32_spec(ident.skip(j1 + 1)),
                    parse_i32_spec(ident.subrange(j2 + 1, j1)),
                ) {
                    (Some(uid), Some(pid)) => Some((ident.take(j2), pid, uid, ws[n - 2], ws[n - 1])),
                    _ => None,
                }
            }
        }
    }
}

/// The fields of one line of `nethogs -t`, if it describes a process.
pub fn parse_line(line: &str) -> (r: Option<ProcessLine>)
    ensures
        match r {
            Some(p) => line_fields(line@) == Some(
                (p.program@, p.pid, p.uid, p.tx_text@, p.rx_text@),
            ),
            None => line_fields(line@) is None,
        },
{
    let v = to_chars(line);
    let t = trim_chars(&v);
    if t.len() == 0 || starts_with_chars(&t, &to_chars("Refreshing")) || starts_with_chars(
        &t,
        &to_chars("nethogs"),
    ) {
        return None;
    }
    let ws = split_words(&t);
    let n = ws.len();
    if n < 3 {
        return None;
    }
    let ghost wv = views(ws@);
    assert(wv.len() == n);
    let ident = join_prefix(&ws, n - 2, ' ');
    let j1 = match find_last(&ident, ident.len(), '/') {
        Some(j) => j,
        None => {
            assert(ident@.take(ident@.len() as int) == ident@);
            return None;
        },
    };
    assert(ident@.take(ident@.len() as int) == ident@);
    proof {
        lemma_last_index_of(ident@, '/');
    }
    let j2 = match find_last(&ident, j1, '/') {
        Some(j) => j,
        None => return None,
    };
    proof {
        lemma_last_index_of(ident@.take(j1 as int), '/');
    }
    let uid_t = sub_chars(&ident, j1 + 1, ident.len());
    let pid_t = sub_chars(&ident, j2 + 1, j1);
    let prog_t = sub_chars(&ident, 0, j2);
    assert(uid_t@ == ident@.skip(j1 + 1));
    assert(prog_t@ == ident@.take(j2 as int));
    let uid = match parse_i32_chars(&uid_t) {
        Some(u) => u,
        None => return None,
    };
    let pid = match parse_i32_chars(&pid_t) {
        Some(p) => p,
        None => return None,
    };
    let tx_text = string_from_chars(ws[n - 2].as_slice());
    let rx_text = string_from_chars(ws[n - 1].as_slice());
    let program = string_from_chars(prog_t.as_slice());
    Some(ProcessLine { program, pid, uid, tx_text, rx_text })
}



/// The line that `nethogs -t` prints for a process: "PROGRAM/PID/UID",
/// a tab, the sent rate, a tab, the received rate.
pub open spec fn trace_line(program: Seq<char>, pid: i32, uid: i32, tx: Seq<char>, rx: Seq<char>) -> Seq<char> {
    program + seq!['/'] + int_text(pid as int) + seq!['/'] + int_text(uid as int) + seq!['\t'] + tx
        + seq!['\t'] + rx
}

/// Every process line that nethogs prints is read back into its program,
/// pid, uid and rates, whatever the pid and uid (pid 0 included, under
/// which nethogs reports traffic it cannot attribute, such as
/// "unknown TCP/0/0"): the program is words separated by single spaces,
/// the rates are words, and the line is no status line.
pub proof fn law_process_line_is_read(ps: Seq<Seq<char>>, pid: i32, uid: i32, tx: Seq<char>, rx: Seq<char>)
    requires
        ps.len() >= 1,
        forall|k: int| 0 <= k < ps.len() ==> (#[trigger] ps[k]).len() > 0,
        forall|k: int, i: int| 0 <= k < ps.len() && 0 <= i < ps[k].len() ==> !is_ws(#[trigger] ps[k][i]),
        tx.len() > 0,
        rx.len() > 0,
        forall|i: int| 0 <= i < tx.len() ==> !is_ws(#[trigger] tx[i]),
        forall|i: int| 0 <= i < rx.len() ==> !is_ws(#[trigger] rx[i]),
        !has_prefix(trace_line(join_with(ps, ' '), pid, uid, tx, rx), "Refreshing"@),
        !has_prefix(trace_line(join_with(ps, ' '), pid, uid, tx, rx), "nethogs"@),
    ensures
        line_fields(trace_line(join_with(ps, ' '), pid, uid, tx, rx)) == Some(
            (join_with(ps, ' '), pid, uid, tx, rx),
        ),
{
    let p = join_with(ps, ' ');
    let d1 = int_text(pid as int);
    let d2 = int_text(uid as int);
    let line = trace_line(p, pid, uid, tx, rx);
    lemma_parse_i32_int_text(pid);
    lemma_parse_i32_int_text(uid);
    assert(('/' as u32) == 47 && ('-' as u32) == 45 && ('\t' as u32) == 9 && (' ' as u32) == 32);
    let t0 = seq!['/'] + d1 + seq!['/'] + d2;
    assert forall|i: int| 0 <= i < t0.len() implies !is_ws(#[trigger] t0[i]) && t0[i] != '\t' by {
        if i == 0 {
        } else if i <= d1.len() {
            assert(t0[i] == d1[i - 1]);
            assert(d1[i - 1] == '-' || is_digit(d1[i - 1]));
        } else if i == d1.len() + 1 {
        } else {
            assert(t0[i] == d2[i - d1.len() - 2]);
            assert(d2[i - d1.len() - 2] == '-' || is_digit(d2[i - d1.len() - 2]));
        }
    }
    let l = ps.len() - 1;
    let qs = ps.update(l, ps.last() + t0);
    lemma_join_extend_last(ps, t0);
    let j = join_with(qs, ' ');
    assert(j == p + t0);
    assert forall|k: int| 0 <= k < qs.len() implies (#[trigger] qs[k]).len() > 0 by {
        if k == l {
        } else {
            assert(qs[k] == ps[k]);
        }
    }
    assert forall|k: int, i: int| 0 <= k < qs.len() && 0 <= i < qs[k].len() implies !is_ws(#[trigger] qs[k][i]) by {
        if k == l {
            if i < ps[l].len() {
                assert(qs[k][i] == ps[l][i]);
            } else {
                assert(qs[k][i] == t0[i - ps[l].len()]);
            }
        } else {
            assert(qs[k] == ps[k]);
        }
    }
    lemma_words_of_join(qs);
    let rest = tx.push('\t') + rx;
    assert(line == j.push('\t') + rest);
    lemma_words_concat(j, '\t', rest);
    lemma_words_concat(tx, '\t', rx);
    lemma_words_single(tx);
    lemma_words_single(rx);
    let ws = words(line);
    assert(ws == qs + seq![tx] + seq![rx]);
    lemma_join_first(ps);
    assert(line[0] == p[0]);
    assert(line.last() == rx.last());
    lemma_trim_plain(line);
    let n = ws.len();
    assert(ws.take(n - 2) == qs);
    assert(ws[n - 2] == tx && ws[n - 1] == rx);
    assert(j == (p.push('/') + d1).push('/') + d2);
    assert forall|i: int| 0 <= i < d2.len() implies #[trigger] d2[i] != '/' by {
        assert(d2[i] == '-' || is_digit(d2[i]));
    }
    assert forall|i: int| 0 <= i < d1.len() implies #[trigger] d1[i] != '/' by {
        assert(d1[i] == '-' || is_digit(d1[i]));
    }
    lemma_last_index_after(p.push('/') + d1, '/', d2);
    let j1 = last_index_of(j, '/');
    assert(j1 == p.len() + 1 + d1.len());
    assert(j.take(j1) == p.push('/') + d1);
    lemma_last_index_after(p, '/', d1);
    let j2 = last_index_of(j.take(j1), '/');
    assert(j2 == p.len());
    assert(j.skip(j1 + 1) == d2);
    assert(j.subrange(j2 + 1, j1) == d1);
    assert(j.take(j2) == p);
}

/// A program path that says nothing about which program it is: empty,
/// "?", "unknown", the re-executed `/proc/self/exe` of Electron-style
/// apps, or a path inside an AppImage mount.
pub open spec fn generic_program(p: Seq<char>) -> bool {
    ||| p.len() == 0
    ||| p == "?"@
    ||| p == "unknown"@
    ||| p == "/proc/self/exe"@
    ||| has_prefix(p, "/tmp/.mount_"@)
}

/// Whether a program path says nothing about which program it is.
pub fn is_generic_program(p: &str) -> (r: bool)
    ensures
        r == generic_program(p@),
{
    let v = to_chars(p);
    v.len() == 0 || crate::text::eq_str(p, "?") || crate::text::eq_str(p, "unknown")
        || crate::text::eq_str(p, "/proc/self/exe") || starts_with_chars(&v, &to_chars("/tmp/.mount_"))
}

/// The first word of a command line, or nothing.
pub open spec fn first_word(cmdline: Seq<char>) -> Seq<char> {
    if words(cmdline).len() > 0 {
        words(cmdline)[0]
    } else {
        Seq::<char>::empty()
    }
}

/// The identity under which a process is known (the key of its alias):
/// its program when that says which program it is; else the target of
/// `/proc/<pid>/exe` when there is one that does; else the first word of
/// its command line when that does; else the program as nethogs gave it.
pub open spec fn identity_of(program: Seq<char>, exe: Option<Seq<char>>, cmdline: Seq<char>) -> Seq<char> {
    if !generic_program(program) {
        program
    } else if exe is Some && !generic_program(exe->0) {
        exe->0
    } else if !generic_program(first_word(cmdline)) {
        first_word(cmdline)
    } else {
        program
    }
}

/// The identity of a process, given the program that nethogs reports, the
/// target of `/proc/<pid>/exe` (looked up only for a generic program) and
/// the command line.
pub fn resolve_identity(program: &str, exe: &Option<String>, cmdline: &str) -> (r: String)
    ensures
        r@ == identity_of(
            program@,
            match exe {
                Some(e) => Some(e@),
                None => None,
            },
            cmdline@,
        ),
{
    if !is_generic_program(program) {
        return String::from_str(program);
    }
    match exe {
        Some(target) => {
            if !is_generic_program(target.as_str()) {
                return target.clone();
            }
        },
        None => {},
    }
    let ws = split_words(&to_chars(cmdline));
    let arg0 = if ws.len() > 0 {
        string_from_chars(ws[0].as_slice())
    } else {
        String::new()
    };
    if !is_generic_program(arg0.as_str()) {
        return arg0;
    }
    String::from_str(program)
}

/// The executable of a process from the target of its `/proc/<pid>/exe`
/// link: nothing for a pid that is not positive or a link that could not
/// be read; the " (deleted)" that the kernel adds for a replaced file is
/// dropped; an empty path counts as none.
pub open spec fn exe_of(pid: i32, target: Option<Seq<char>>) -> Option<Seq<char>> {
    if pid <= 0 {
        None
    } else {
        match target {
            None => None,
            Some(t) => {
                let s = if t.len() >= 10 && t.skip(t.len() - 10) == " (deleted)"@ {
                    t.take(t.len() - 10)
                } else {
                    t
                };
                if s.len() == 0 {
                    None
                } else {
                    Some(s)
                }
            },
        }
    }
}

/// The executable of a process from the target of its `/proc/<pid>/exe`.
pub fn exe_path(pid: i32, target: &Option<String>) -> (r: Option<String>)
    ensures
        match r {
            Some(s) => exe_of(pid, opt_view(*target)) == Some(s@),
            None => exe_of(pid, opt_view(*target)) is None,
        },
{
    if pid <= 0 {
        return None;
    }
    match target {
        None => None,
        Some(t) => {
            let v = to_chars(t.as_str());
            let suffix = to_chars(" (deleted)");
            proof {
                reveal_strlit(" (deleted)");
            }
            assert(suffix@.len() == 10);
            let n = v.len();
            let s = if n >= 10 && crate::text::chars_eq(&sub_chars(&v, n - 10, n), &suffix) {
                sub_chars(&v, 0, n - 10)
            } else {
                sub_chars(&v, 0, n)
            };
            assert(v@.subrange(0, n as int) == v@);
            assert(n >= 10 ==> v@.subrange(n - 10, n as int) == v@.skip(n - 10));
            assert(n >= 10 ==> v@.subrange(0, n - 10) == v@.take(n - 10));
            if s.len() == 0 {
                None
            } else {
                Some(string_from_chars(s.as_slice()))
            }
        },
    }
}

/// The view of an optional string.
pub open spec fn opt_view(o: Option<String>) -> Option<Seq<char>> {
    match o {
        Some(s) => Some(s@),
        None => None,
    }
}

/// What `String::from_utf8_lossy` makes of a byte sequence.
pub uninterp spec fn utf8_lossy(bytes: Seq<u8>) -> Seq<char>;

/// Bytes that are all ASCII.
pub open spec fn all_ascii(bytes: Seq<u8>) -> bool {
    forall|i: int| 0 <= i < bytes.len() ==> #[trigger] bytes[i] < 128
}

/// The characters of ASCII bytes, one for one.
pub open spec fn ascii_text(bytes: Seq<u8>) -> Seq<char> {
    Seq::new(bytes.len(), |i: int| bytes[i] as char)
}

/// `String::from_utf8_lossy`: the text is named `utf8_lossy` of the bytes
/// (invalid UTF-8 becomes U+FFFD) and depends on nothing else; valid
/// UTF-8, such as ASCII, comes through unchanged.
#[verifier::external_body]
fn lossy_text(bytes: &[u8]) -> (r: String)
    ensures
        r@ == utf8_lossy(bytes@),
        all_ascii(bytes@) ==> r@ == ascii_text(bytes@),
{
    String::from_utf8_lossy(bytes).into_owned()
}

/// The bytes of a command line with its NUL separators made spaces.
pub open spec fn nul_to_space(raw: Seq<u8>) -> Seq<u8> {
    Seq::new(raw.len(), |i: int| if raw[i] == 0 { 32u8 } else { raw[i] })
}

/// The command line of a process from the contents of `/proc/<pid>/cmdline`:
/// nothing for a pid that is not positive or a file that could not be
/// read; else the arguments joined by spaces, decoded, trimmed.
pub open spec fn cmdline_of(pid: i32, raw: Option<Seq<u8>>) -> Option<Seq<char>> {
    if pid <= 0 {
        None
    } else {
        match raw {
            None => None,
            Some(b) => Some(trim(utf8_lossy(nul_to_space(b)))),
        }
    }
}

/// The command line of a process from the bytes of its `/proc/<pid>/cmdline`.
pub fn cmdline_text(pid: i32, raw: &Option<Vec<u8>>) -> (r: Option<String>)
    ensures
        match r {
            Some(s) => cmdline_of(
                pid,
                match raw {
                    Some(b) => Some(b@),
                    None => None,
                },
            ) == Some(s@),
            None => cmdline_of(
                pid,
                match raw {
                    Some(b) => Some(b@),
                    None => None,
                },
            ) is None,
        },
        match raw {
            Some(b) => pid > 0 && all_ascii(b@) ==> (r matches Some(s) && s@ == trim(
                ascii_text(nul_to_space(b@)),
            )),
            None => true,
        },
{
    if pid <= 0 {
        return None;
    }
    match raw {
        None => None,
        Some(b) => {
            let mut joined: Vec<u8> = Vec::new();
            for i in 0..b.len()
                invariant
                    joined@ == nul_to_space(b@).take(i as int),
            {
                joined.push(if b[i] == 0 { 32u8 } else { b[i] });
                assert(nul_to_space(b@).take(i + 1) == nul_to_space(b@).take(i as int).push(
                    nul_to_space(b@)[i as int],
                ));
            }
            assert(nul_to_space(b@).take(b@.len() as int) == nul_to_space(b@));
            assert(all_ascii(b@) ==> all_ascii(joined@));
            let text = lossy_text(joined.as_slice());
            Some(crate::text::trim_str(text.as_str()))
        },
    }
}


/// A line of `/etc/passwd` that belongs to `uid`: its third ':'-separated
/// field reads as that number.
pub open spec fn passwd_line_for(line: Seq<char>, uid: i32) -> bool {
    let cols = split_char(line, ':');
    cols.len() >= 3 && parse_i32_spec(cols[2]) == Some(uid)
}

/// The user name of the first line that belongs to `uid`, if any.
pub open spec fn first_user(lines: Seq<Seq<char>>, uid: i32) -> Option<Seq<char>>
    decreases lines.len(),
{
    if lines.len() == 0 {
        None
    } else {
        match first_user(lines.drop_last(), uid) {
            Some(u) => Some(u),
            None => if passwd_line_for(lines.last(), uid) {
                Some(split_char(lines.last(), ':')[0])
            } else {
                None
            },
        }
    }
}

proof fn lemma_first_user_extends(lines: Seq<Seq<char>>, uid: i32, k: int)
    requires
        0 <= k <= lines.len(),
        first_user(lines.take(k), uid) is Some,
    ensures
        first_user(lines, uid) == first_user(lines.take(k), uid),
    decreases lines.len() - k,
{
    if k < lines.len() {
        assert(lines.drop_last().take(k) == lines.take(k));
        lemma_first_user_extends(lines.drop_last(), uid, k);
    } else {
        assert(lines.take(k) == lines);
    }
}

/// The user name of `uid` in the contents of `/etc/passwd`.
pub fn uid_to_user(uid: i32, passwd: &str) -> (r: Option<String>)
    ensures
        match r {
            Some(u) => first_user(text_lines(passwd@), uid) == Some(u@),
            None => first_user(text_lines(passwd@), uid) is None,
        },
{
    let chars = to_chars(passwd);
    let lines = split_lines(&chars);
    let ghost ls = views(lines@);
    assert(ls == text_lines(passwd@));
    let n = lines.len();
    let mut i: usize = 0;
    assert(ls.take(0) == Seq::<Seq<char>>::empty());
    while i < n
        invariant
            i <= n == lines@.len() == ls.len(),
            ls == views(lines@),
            ls == text_lines(passwd@),
            first_user(ls.take(i as int), uid) is None,
        decreases n - i,
    {
        assert(ls.take(i + 1).drop_last() == ls.take(i as int));
        assert(ls.take(i + 1).last() == lines@[i as int]@);
        let cols = split_on(&lines[i], ':');
        if cols.len() >= 3 {
            match parse_i32_chars(&cols[2]) {
                Some(u) => {
                    if u == uid {
                        assert(views(cols@)[2] == cols@[2]@);
                        assert(views(cols@)[0] == cols@[0]@);
                        assert(passwd_line_for(ls[i as int], uid));
                        assert(first_user(ls.take(i + 1), uid) == Some(cols@[0]@));
                        proof {
                            lemma_first_user_extends(ls, uid, i + 1);
                        }
                        let name = string_from_chars(cols[0].as_slice());
                        assert(name@ == cols@[0]@);
                        return Some(name);
                    }
                },
                None => {},
            }
        }
        assert(!passwd_line_for(ls[i as int], uid)) by {
            assert(views(cols@).len() == cols@.len());
            if cols@.len() >= 3 {
                assert(views(cols@)[2] == cols@[2]@);
            }
        }
        i += 1;
    }
    assert(ls.take(n as int) == ls);
    None
}

/// The user shown for `uid`: its name in `/etc/passwd` (when that could be
/// read and names it), else the number itself.
pub open spec fn user_label_of(uid: i32, passwd: Option<Seq<char>>) -> Seq<char> {
    match passwd {
        Some(p) => match first_user(text_lines(p), uid) {
            Some(u) => u,
            None => int_text(uid as int),
        },
        None => int_text(uid as int),
    }
}

/// The user shown for `uid`, given the contents of `/etc/passwd` if read.
pub fn user_label(uid: i32, passwd: &Option<String>) -> (r: String)
    ensures
        r@ == user_label_of(uid, opt_view(*passwd)),
{
    let found = match passwd {
        Some(p) => uid_to_user(uid, p.as_str()),
        None => None,
    };
    match found {
        Some(u) => u,
        None => padded_decimal_string(uid as i64, 0),
    }
}

/// The rows of one refresh of nethogs, at most one per process (the pid
/// together with the identity), in the order in which they first came;
/// `T` is whatever the monitor shows of a process.
pub struct Frame<T> {
    rows: Vec<(i32, String, T)>,
}

/// No two rows share a pid and an identity.
pub open spec fn rows_distinct<T>(rows: Seq<(i32, String, T)>) -> bool {
    forall|i: int, j: int|
        0 <= i < rows.len() && 0 <= j < rows.len() && i != j ==> #[trigger] rows[i].0 != #[trigger] rows[j].0
            || rows[i].1@ != rows[j].1@
}

/// The position of the first row of a process, or -1.
pub open spec fn row_of<T>(rows: Seq<(i32, String, T)>, pid: i32, identity: Seq<char>) -> int
    decreases rows.len(),
{
    if rows.len() == 0 {
        -1
    } else {
        let f = row_of(rows.drop_last(), pid, identity);
        if f >= 0 {
            f
        } else if rows.last().0 == pid && rows.last().1@ == identity {
            rows.len() - 1
        } else {
            -1
        }
    }
}

proof fn lemma_row_of_extends<T>(rows: Seq<(i32, String, T)>, pid: i32, identity: Seq<char>, k: int)
    requires
        0 <= k <= rows.len(),
        row_of(rows.take(k), pid, identity) >= 0,
    ensures
        row_of(rows, pid, identity) == row_of(rows.take(k), pid, identity),
    decreases rows.len() - k,
{
    if k < rows.len() {
        assert(rows.drop_last().take(k) == rows.take(k));
        lemma_row_of_extends(rows.drop_last(), pid, identity, k);
    } else {
        assert(rows.take(k) == rows);
    }
}

proof fn lemma_row_of_bounds<T>(rows: Seq<(i32, String, T)>, pid: i32, identity: Seq<char>)
    ensures
        -1 <= row_of(rows, pid, identity) < rows.len(),
        row_of(rows, pid, identity) >= 0 ==> rows[row_of(rows, pid, identity)].0 == pid
            && rows[row_of(rows, pid, identity)].1@ == identity,
        row_of(rows, pid, identity) == -1 ==> forall|i: int|
            0 <= i < rows.len() ==> #[trigger] rows[i].0 != pid || rows[i].1@ != identity,
    decreases rows.len(),
{
    if rows.len() > 0 {
        lemma_row_of_bounds(rows.drop_last(), pid, identity);
        if row_of(rows, pid, identity) == -1 {
            assert forall|i: int| 0 <= i < rows.len() implies #[trigger] rows[i].0 != pid
                || rows[i].1@ != identity by {
                if i < rows.len() - 1 {
                    assert(rows[i] == rows.drop_last()[i]);
                }
            }
        }
    }
}

impl<T> Frame<T> {
    #[verifier::type_invariant]
    spec fn distinct(self) -> bool {
        rows_distinct(self.rows@)
    }

    /// The rows in order.
    pub closed spec fn rows(self) -> Seq<(i32, String, T)> {
        self.rows@
    }

    /// A frame without rows.
    pub fn new() -> (r: Self)
        ensures
            r.rows() == Seq::<(i32, String, T)>::empty(),
    {
        Frame { rows: Vec::new() }
    }

    /// The number of rows.
    pub fn len(&self) -> (n: usize)
        ensures
            n == self.rows().len(),
    {
        self.rows.len()
    }

    /// Records the latest row of a process: it replaces the row of the same
    /// pid and identity, or comes last when the process is new.
    pub fn upsert(&mut self, pid: i32, identity: String, row: T)
        ensures
            ({
                let j = row_of(old(self).rows(), pid, identity@);
                if j >= 0 {
                    final(self).rows() == old(self).rows().update(j, (pid, identity, row))
                } else {
                    final(self).rows() == old(self).rows().push((pid, identity, row))
                }
            }),
    {
        proof {
            use_type_invariant(&*self);
        }
        let mut rows: Vec<(i32, String, T)> = Vec::new();
        std::mem::swap(&mut rows, &mut self.rows);
        let ghost old_rows = rows@;
        proof {
            lemma_row_of_bounds(old_rows, pid, identity@);
        }
        let n = rows.len();
        let mut i: usize = 0;
        assert(old_rows.take(0) == Seq::<(i32, String, T)>::empty());
        while i < n && !(rows[i].0 == pid && rows[i].1 == identity)
            invariant
                i <= n == rows@.len(),
                rows@ == old_rows,
                row_of(old_rows.take(i as int), pid, identity@) == -1,
            decreases n - i,
        {
            assert(old_rows.take(i + 1).drop_last() == old_rows.take(i as int));
            i += 1;
        }
        if i < n {
            assert(old_rows.take(i + 1).drop_last() == old_rows.take(i as int));
            proof {
                lemma_row_of_extends(old_rows, pid, identity@, i + 1);
            }
            rows.set(i, (pid, identity, row));
            assert(rows_distinct(rows@)) by {
                assert forall|a: int, b: int|
                    0 <= a < rows@.len() && 0 <= b < rows@.len() && a != b implies #[trigger] rows@[a].0
                    != #[trigger] rows@[b].0 || rows@[a].1@ != rows@[b].1@ by {
                    if a != i && b != i {
                        assert(rows@[a] == old_rows[a] && rows@[b] == old_rows[b]);
                    } else if a == i {
                        assert(rows@[b] == old_rows[b]);
                        assert(old_rows[a].0 == pid && old_rows[a].1@ == identity@);
                    } else {
                        assert(rows@[a] == old_rows[a]);
                        assert(old_rows[b].0 == pid && old_rows[b].1@ == identity@);
                    }
                }
            }
        } else {
            assert(old_rows.take(n as int) == old_rows);
            rows.push((pid, identity, row));
            assert(rows_distinct(rows@)) by {
                assert forall|a: int, b: int|
                    0 <= a < rows@.len() && 0 <= b < rows@.len() && a != b implies #[trigger] rows@[a].0
                    != #[trigger] rows@[b].0 || rows@[a].1@ != rows@[b].1@ by {
                    if a < n as int && b < n as int {
                        assert(rows@[a] == old_rows[a] && rows@[b] == old_rows[b]);
                    } else if a < n as int {
                        assert(rows@[a] == old_rows[a]);
                    } else {
                        assert(rows@[b] == old_rows[b]);
                    }
                }
            }
        }
        self.rows = rows;
    }

    /// Empties the frame and hands out its rows, in order.
    pub fn take_rows(&mut self) -> (r: Vec<T>)
        ensures
            final(self).rows() == Seq::<(i32, String, T)>::empty(),
            r@ == Seq::new(old(self).rows().len(), |i: int| old(self).rows()[i].2),
    {
        let mut rows: Vec<(i32, String, T)> = Vec::new();
        std::mem::swap(&mut rows, &mut self.rows);
        let ghost old_rows = rows@;
        let mut out: Vec<T> = Vec::new();
        let mut rest = rows;
        let mut taken: Vec<T> = Vec::new();
        while rest.len() > 0
            invariant
                taken@.len() + rest@.len() == old_rows.len(),
                rest@ == old_rows.take(rest@.len() as int),
                taken@ == Seq::new(taken@.len(), |i: int| old_rows[old_rows.len() - 1 - i].2),
            decreases rest@.len(),
        {
            let (_, _, row) = rest.pop().unwrap();
            taken.push(row);
        }
        while taken.len() > 0
            invariant
                out@.len() + taken@.len() == old_rows.len(),
                out@ == Seq::new(out@.len(), |i: int| old_rows[i].2),
                taken@ == Seq::new(taken@.len(), |i: int| old_rows[old_rows.len() - 1 - i].2),
            decreases taken@.len(),
        {
            let row = taken.pop().unwrap();
            out.push(row);
        }
        out
    }
}


/// The totals of the monitoring session as the monitor shows them.
pub struct SessionStats {
    /// The start of the session in the machine's time zone, or "".
    pub started_at: String,
    /// The start in milliseconds since the epoch, or 0.
    pub started_unix_ms: i64,
    pub total_rx_bytes: u64,
    pub total_tx_bytes: u64,
}

/// The state of the nethogs stream: whether it runs, when the session
/// began, and the bytes counted since.
pub struct NethogsState {
    running: bool,
    session_start: Option<Instant>,
    start_text: String,
    total_rx_bytes: u64,
    total_tx_bytes: u64,
}

/// The view of the stream state: (running, start, received, sent, the
/// start as written when the session began).
pub type NethogsView = (bool, Option<Instant>, u64, u64, Seq<char>);

impl View for NethogsState {
    type V = NethogsView;

    closed spec fn view(&self) -> NethogsView {
        (self.running, self.session_start, self.total_rx_bytes, self.total_tx_bytes, self.start_text@)
    }
}

impl NethogsState {
    #[verifier::type_invariant]
    spec fn start_by_clock(self) -> bool {
        self.session_start matches Some(t) ==> is_clock_instant(t)
    }

    /// Not running, no session, nothing counted.
    pub fn new() -> (r: Self)
        ensures
            r@ == (false, None::<Instant>, 0u64, 0u64, Seq::<char>::empty()),
    {
        NethogsState {
            running: false,
            session_start: None,
            start_text: String::new(),
            total_rx_bytes: 0,
            total_tx_bytes: 0,
        }
    }

    /// Marks the stream as running; returns false when it ran already (the
    /// caller then starts nothing). The session begins now unless it began
    /// before.
    pub fn begin_stream(&mut self) -> (started: bool)
        ensures
            started == !old(self)@.0,
            final(self)@.0,
            final(self)@.2 == old(self)@.2,
            final(self)@.3 == old(self)@.3,
            !started ==> final(self)@ == old(self)@,
            started && old(self)@.1 is Some ==> final(self)@.1 == old(self)@.1 && final(self)@.4
                == old(self)@.4,
            started && old(self)@.1 is None ==> (final(self)@.1 matches Some(t) && is_clock_instant(
                t,
            )),
    {
        proof {
            use_type_invariant(&*self);
        }
        if self.running {
            return false;
        }
        self.running = true;
        if self.session_start.is_none() {
            let now = clock_now();
            self.start_text = local_rfc3339(now);
            self.session_start = Some(now);
        }
        true
    }

    /// Adds the bytes of one refresh to the session totals, stopping at
    /// `u64::MAX`.
    pub fn add_totals(&mut self, rx_bytes: u64, tx_bytes: u64)
        ensures
            final(self)@ == (
                old(self)@.0,
                old(self)@.1,
                crate::alerts::sat_add(old(self)@.2 as int, rx_bytes as int),
                crate::alerts::sat_add(old(self)@.3 as int, tx_bytes as int),
                old(self)@.4,
            ),
    {
        proof {
            use_type_invariant(&*self);
        }
        self.total_rx_bytes = self.total_rx_bytes.saturating_add(rx_bytes);
        self.total_tx_bytes = self.total_tx_bytes.saturating_add(tx_bytes);
    }

    /// The totals of the session: its start (as the text written when it
    /// began, in the machine's time zone, and in milliseconds since the
    /// epoch; "" and 0 before the session began) and the bytes counted.
    pub fn session_stats(&self) -> (r: SessionStats)
        ensures
            r.total_rx_bytes == self@.2,
            r.total_tx_bytes == self@.3,
            match self@.1 {
                Some(t) => r.started_unix_ms == millis_of(t) && r.started_at@ == self@.4,
                None => r.started_unix_ms == 0 && r.started_at@ == Seq::<char>::empty(),
            },
    {
        proof {
            use_type_invariant(self);
        }
        let (started_at, started_unix_ms) = match self.session_start {
            Some(t) => (self.start_text.clone(), unix_millis(t)),
            None => (String::new(), 0),
        };
        SessionStats {
            started_at,
            started_unix_ms,
            total_rx_bytes: self.total_rx_bytes,
            total_tx_bytes: self.total_tx_bytes,
        }
    }
}

/// The frame is flushed once this many milliseconds passed since the last flush.
pub const FLUSH_INTERVAL_MS: u64 = 900;

/// Whether the frame is due to be flushed after `elapsed_ms` milliseconds.
pub fn should_flush(elapsed_ms: u64) -> (r: bool)
    ensures
        r == (elapsed_ms >= 900),
{
    elapsed_ms >= FLUSH_INTERVAL_MS
}

/// The program and the arguments that start nethogs in trace mode with a
/// refresh every second, through `pkexec` (to see root-owned processes)
/// or directly.
pub fn nethogs_command(use_pkexec: bool) -> (r: (String, Vec<String>))
    ensures
        use_pkexec ==> r.0@ == "pkexec"@ && r.1@.len() == 4 && r.1@[0]@ == "nethogs"@
            && r.1@[1]@ == "-t"@ && r.1@[2]@ == "-d"@ && r.1@[3]@ == "1"@,
        !use_pkexec ==> r.0@ == "nethogs"@ && r.1@.len() == 3 && r.1@[0]@ == "-t"@ && r.1@[1]@
            == "-d"@ && r.1@[2]@ == "1"@,
{
    let mut args: Vec<String> = Vec::new();
    let program = if use_pkexec {
        args.push(String::from_str("nethogs"));
        String::from_str("pkexec")
    } else {
        String::from_str("nethogs")
    };
    args.push(String::from_str("-t"));
    args.push(String::from_str("-d"));
    args.push(String::from_str("1"));
    (program, args)
}

/// What happened to one run of nethogs.
pub enum StreamEvent {
    /// It could not be started.
    SpawnFailed,
    /// It started without an output to read.
    NoOutput,
    /// Its output ended.
    Exited,
}

/// When to start nethogs again and how: the decisions of the stream loop.
pub struct StreamSupervisor {
    /// Whether the next run goes through `pkexec`.
    pub use_pkexec: bool,
}

impl StreamSupervisor {
    /// The first run goes through `pkexec`: nethogs needs root to map
    /// root-owned processes to their pids.
    pub fn new() -> (r: Self)
        ensures
            r.use_pkexec,
    {
        StreamSupervisor { use_pkexec: true }
    }

    /// The milliseconds to wait before the next run after `event`. After a
    /// run ends, the next one goes without `pkexec` (the user may have
    /// refused it), so that at least the user's own processes show.
    pub fn on_event(&mut self, event: StreamEvent) -> (wait_ms: u64)
        ensures
            match event {
                StreamEvent::SpawnFailed => wait_ms == 5000 && final(self).use_pkexec
                    == old(self).use_pkexec,
                StreamEvent::NoOutput => wait_ms == 2000 && final(self).use_pkexec
                    == old(self).use_pkexec,
                StreamEvent::Exited => wait_ms == 3000 && !final(self).use_pkexec,
            },
    {
        match event {
            StreamEvent::SpawnFailed => 5000,
            StreamEvent::NoOutput => 2000,
            StreamEvent::Exited => {
                self.use_pkexec = false;
                3000
            },
        }
    }
}

} // verus!

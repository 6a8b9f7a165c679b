use vstd::prelude::*;

use crate::app::{App, AppModel};
use crate::text::{
    first_index, lemma_concat_contains, lemma_first_index, lemma_first_index_is, lemma_first_index_none,
    lemma_take_seg_concat, next_seg, strip_prefix, take_seg,
};

verus! {

// ---------------------------------------------------------------------------
// Decimal numerals
// ---------------------------------------------------------------------------

/// The digit character for a value below ten.
pub open spec fn digit_char(d: nat) -> char {
    if d == 0 {
        '0'
    } else if d == 1 {
        '1'
    } else if d == 2 {
        '2'
    } else if d == 3 {
        '3'
    } else if d == 4 {
        '4'
    } else if d == 5 {
        '5'
    } else if d == 6 {
        '6'
    } else if d == 7 {
        '7'
    } else if d == 8 {
        '8'
    } else {
        '9'
    }
}

/// The value of a digit character, or ten for any other character.
pub open spec fn digit_value(c: char) -> nat {
    if c == '0' {
        0
    } else if c == '1' {
        1
    } else if c == '2' {
        2
    } else if c == '3' {
        3
    } else if c == '4' {
        4
    } else if c == '5' {
        5
    } else if c == '6' {
        6
    } else if c == '7' {
        7
    } else if c == '8' {
        8
    } else if c == '9' {
        9
    } else {
        10
    }
}

pub open spec fn is_digit(c: char) -> bool {
    digit_value(c) < 10
}

/// The canonical decimal numeral for `n`: no sign, no leading zero.
pub open spec fn dec_digits(n: nat) -> Seq<char>
    decreases n,
{
    if n < 10 {
        seq![digit_char(n)]
    } else {
        dec_digits(n / 10) + seq![digit_char(n % 10)]
    }
}

/// The value of a numeral read as base ten, digit value ten poisoning the sum.
pub open spec fn dec_value(s: Seq<char>) -> int
    decreases s.len(),
{
    if s.len() == 0 {
        0
    } else {
        dec_value(s.drop_last()) * 10 + digit_value(s.last())
    }
}

/// A numeral the parser accepts: non-empty, all digits, no leading zero.
pub open spec fn canonical_numeral(s: Seq<char>) -> bool {
    &&& s.len() >= 1
    &&& forall|i: int| 0 <= i < s.len() ==> is_digit(#[trigger] s[i])
    &&& (s[0] == '0' ==> s.len() == 1)
}

/// What a stored flags value parses to.
pub open spec fn parse_flags(s: Seq<char>) -> Option<u32> {
    if canonical_numeral(s) && dec_value(s) <= u32::MAX as int {
        Some(dec_value(s) as u32)
    } else {
        None
    }
}

/// `dec_digits` holds digit characters only.
pub proof fn lemma_dec_digits_chars(n: nat)
    ensures
        forall|i: int| 0 <= i < dec_digits(n).len() ==> is_digit(#[trigger] dec_digits(n)[i]),
        dec_digits(n).len() >= 1,
    decreases n,
{
    if n >= 10 {
        lemma_dec_digits_chars(n / 10);
    }
}

/// `dec_digits` of a positive value never starts with a zero.
pub proof fn lemma_dec_digits_head(n: nat)
    requires
        n >= 1,
    ensures
        dec_digits(n)[0] != '0',
    decreases n,
{
    if n >= 10 {
        lemma_dec_digits_head(n / 10);
        assert(dec_digits(n)[0] == dec_digits(n / 10)[0]);
    }
}

/// Rendering a value and reading the numeral back is the identity.
pub proof fn lemma_dec_round_trip(n: nat)
    ensures
        canonical_numeral(dec_digits(n)),
        dec_value(dec_digits(n)) == n,
    decreases n,
{
    lemma_dec_digits_chars(n);
    if n < 10 {
        let s = dec_digits(n);
        assert(s.drop_last() =~= Seq::<char>::empty());
        assert(s.last() == digit_char(n));
        assert(dec_value(s.drop_last()) == 0);
        assert(digit_value(digit_char(n)) == n);
        assert(dec_value(s) == n);
    } else {
        lemma_dec_round_trip(n / 10);
        lemma_dec_digits_head(n / 10);
        let s = dec_digits(n);
        assert(s.drop_last() =~= dec_digits(n / 10));
        assert(s.last() == digit_char(n % 10));
        assert(dec_value(s) == (n / 10) * 10 + n % 10);
        assert((n / 10) * 10 + n % 10 == n) by (nonlinear_arith);
        assert(s[0] == dec_digits(n / 10)[0]);
    }
}

/// A numeral holds no separator characters.
pub proof fn lemma_digits_lack(s: Seq<char>, c: char)
    requires
        forall|i: int| 0 <= i < s.len() ==> is_digit(#[trigger] s[i]),
        !is_digit(c),
    ensures
        !s.contains(c),
{
    if s.contains(c) {
        let i = choose|i: int| 0 <= i < s.len() && s[i] == c;
    }
}

/// Extending an all-digit numeral on the right cannot shrink its value.
pub proof fn lemma_dec_value_prefix(s: Seq<char>, k: int)
    requires
        forall|i: int| 0 <= i < s.len() ==> is_digit(#[trigger] s[i]),
        0 <= k <= s.len(),
    ensures
        dec_value(s) >= dec_value(s.take(k)),
        dec_value(s) >= 0,
    decreases s.len(),
{
    if s.len() == 0 {
    } else {
        lemma_dec_value_prefix(s.drop_last(), if k < s.len() { k } else { s.len() - 1 });
        if k < s.len() {
            assert(s.take(k) =~= s.drop_last().take(k));
            assert(dec_value(s.drop_last()) * 10 >= dec_value(s.drop_last())) by (nonlinear_arith)
                requires
                    dec_value(s.drop_last()) >= 0,
            ;
        } else {
            assert(s.take(k) =~= s);
            assert(dec_value(s.drop_last()) * 10 >= 0) by (nonlinear_arith)
                requires
                    dec_value(s.drop_last()) >= 0,
            ;
        }
    }
}

/// The digit character for an in-range value.
fn digit_str(d: u32) -> (r: &'static str)
    requires
        d < 10,
    ensures
        r@ =~= seq![digit_char(d as nat)],
{
    proof {
        reveal_strlit("0");
        reveal_strlit("1");
        reveal_strlit("2");
        reveal_strlit("3");
        reveal_strlit("4");
        reveal_strlit("5");
        reveal_strlit("6");
        reveal_strlit("7");
        reveal_strlit("8");
        reveal_strlit("9");
    }
    match d {
        0 => "0",
        1 => "1",
        2 => "2",
        3 => "3",
        4 => "4",
        5 => "5",
        6 => "6",
        7 => "7",
        8 => "8",
        _ => "9",
    }
}

/// Writes `n` as its canonical decimal numeral.
pub fn u32_to_dec(n: u32) -> (r: String)
    ensures
        r@ == dec_digits(n as nat),
    decreases n,
{
    if n < 10 {
        let mut s = String::new();
        s.append(digit_str(n));
        proof {
            assert(s@ =~= dec_digits(n as nat));
        }
        s
    } else {
        let mut s = u32_to_dec(n / 10);
        s.append(digit_str(n % 10));
        proof {
            assert(s@ =~= dec_digits(n as nat));
        }
        s
    }
}

/// The numeric value of a digit character, ten when it is none.
fn digit_of(c: char) -> (d: u32)
    ensures
        d as nat == digit_value(c),
{
    match c {
        '0' => 0,
        '1' => 1,
        '2' => 2,
        '3' => 3,
        '4' => 4,
        '5' => 5,
        '6' => 6,
        '7' => 7,
        '8' => 8,
        '9' => 9,
        _ => 10,
    }
}

/// Reads a canonical decimal numeral that fits a `u32`.
pub fn dec_to_u32(s: &str) -> (r: Option<u32>)
    ensures
        r == parse_flags(s@),
{
    let n = s.unicode_len();
    if n == 0 {
        return None;
    }
    if s.get_char(0) == '0' {
        if n == 1 {
            proof {
                assert(s@ =~= seq!['0']);
                assert(s@.drop_last() =~= Seq::<char>::empty());
                assert(is_digit(s@[0]));
                assert(canonical_numeral(s@));
                assert(s@.last() == '0');
                assert(dec_value(s@.drop_last()) == 0);
                assert(dec_value(s@) == 0);
            }
            return Some(0);
        }
        return None;
    }
    let mut val: u64 = 0;
    let mut i: usize = 0;
    while i < n
        invariant
            0 <= i <= n,
            n == s@.len(),
            n >= 1,
            s@[0] != '0',
            forall|j: int| 0 <= j < i ==> is_digit(#[trigger] s@[j]),
            val as int == dec_value(s@.take(i as int)),
            val <= u32::MAX,
        decreases n - i,
    {
        let c = s.get_char(i);
        let d = digit_of(c);
        if d >= 10 {
            return None;
        }
        let next: u64 = val * 10 + (d as u64);
        proof {
            assert(s@.take(i + 1).drop_last() =~= s@.take(i as int));
            assert(s@.take(i + 1).last() == s@[i as int]);
        }
        if next > (u32::MAX as u64) {
            proof {
                if canonical_numeral(s@) {
                    lemma_dec_value_prefix(s@, i + 1);
                    assert(dec_value(s@) >= dec_value(s@.take(i + 1)));
                }
            }
            return None;
        }
        val = next;
        i = i + 1;
    }
    proof {
        assert(s@.take(n as int) =~= s@);
    }
    Some(val as u32)
}

// ---------------------------------------------------------------------------
// Space-joined command words
// ---------------------------------------------------------------------------

/// The command words joined with single spaces.
pub open spec fn join_words(ws: Seq<Seq<char>>) -> Seq<char>
    decreases ws.len(),
{
    if ws.len() == 0 {
        Seq::empty()
    } else if ws.len() == 1 {
        ws[0]
    } else {
        ws[0] + seq![' '] + join_words(ws.skip(1))
    }
}

/// A space-joined value split back into words.
pub open spec fn split_words(s: Seq<char>) -> Seq<Seq<char>>
    decreases s.len(),
{
    let i = first_index(s, ' ');
    if 0 <= i < s.len() {
        seq![s.take(i)] + split_words(s.skip(i + 1))
    } else {
        seq![s]
    }
}

/// Appending one word to a non-empty command extends the join on the right.
pub proof fn lemma_join_push(ws: Seq<Seq<char>>, w: Seq<char>)
    requires
        ws.len() >= 1,
    ensures
        join_words(ws.push(w)) == join_words(ws) + seq![' '] + w,
    decreases ws.len(),
{
    if ws.len() == 1 {
        assert(ws.push(w)[0] == ws[0]);
        assert(ws.push(w).skip(1) =~= seq![w]);
        assert(join_words(seq![w]) == w);
        assert(join_words(ws.push(w)) =~= ws[0] + seq![' '] + w);
    } else {
        lemma_join_push(ws.skip(1), w);
        assert(ws.push(w).skip(1) =~= ws.skip(1).push(w));
        assert(ws.push(w)[0] == ws[0]);
        assert(join_words(ws.push(w)) =~= join_words(ws) + seq![' '] + w);
    }
}

/// Words free of spaces are recovered exactly by splitting their join.
pub proof fn lemma_split_join(ws: Seq<Seq<char>>)
    requires
        ws.len() >= 1,
        forall|k: int| 0 <= k < ws.len() ==> !(#[trigger] ws[k]).contains(' '),
    ensures
        split_words(join_words(ws)) == ws,
    decreases ws.len(),
{
    let j = join_words(ws);
    if ws.len() == 1 {
        lemma_first_index_none(j, ' ');
        assert(split_words(j) =~= ws);
    } else {
        let rest = join_words(ws.skip(1));
        assert forall|m: int| 0 <= m < ws[0].len() implies j[m] != ' ' by {
            assert(j[m] == ws[0][m]);
            if ws[0][m] == ' ' {
                assert(ws[0].contains(' '));
            }
        }
        assert(j[ws[0].len() as int] == ' ');
        lemma_first_index_is(j, ' ', ws[0].len() as int);
        assert(j.take(ws[0].len() as int) =~= ws[0]);
        assert(j.skip(ws[0].len() as int + 1) =~= rest);
        assert(forall|k: int|
            0 <= k < ws.skip(1).len() ==> ws.skip(1)[k] == ws[k + 1]);
        lemma_split_join(ws.skip(1));
        assert(split_words(j) =~= seq![ws[0]] + ws.skip(1));
        assert(seq![ws[0]] + ws.skip(1) =~= ws);
    }
}

/// A join of newline-free words holds no newline.
pub proof fn lemma_join_lacks(ws: Seq<Seq<char>>, c: char)
    requires
        c != ' ',
        forall|k: int| 0 <= k < ws.len() ==> !(#[trigger] ws[k]).contains(c),
    ensures
        !join_words(ws).contains(c),
    decreases ws.len(),
{
    if ws.len() == 0 {
    } else if ws.len() == 1 {
    } else {
        assert(forall|k: int|
            0 <= k < ws.skip(1).len() ==> ws.skip(1)[k] == ws[k + 1]);
        lemma_join_lacks(ws.skip(1), c);
        lemma_concat_contains(ws[0], seq![' '], c);
        lemma_concat_contains(ws[0] + seq![' '], join_words(ws.skip(1)), c);
        assert(!seq![' '].contains(c)) by {
            if seq![' '].contains(c) {
                let i = choose|i: int| 0 <= i < 1 && seq![' '][i] == c;
            }
        }
    }
}

/// Joins the command words with single spaces.
pub fn join_cmd(cmd: &Vec<String>) -> (r: String)
    ensures
        r@ == join_words(cmd.deep_view()),
{
    let ghost ws = cmd.deep_view();
    let mut s = String::new();
    if cmd.len() == 0 {
        return s;
    }
    s.append(cmd[0].as_str());
    let mut i: usize = 1;
    proof {
        assert(ws.take(1) =~= seq![ws[0]]);
        assert(join_words(ws.take(1)) == ws[0]);
    }
    while i < cmd.len()
        invariant
            1 <= i <= cmd.len(),
            ws == cmd.deep_view(),
            ws.len() == cmd.len(),
            s@ == join_words(ws.take(i as int)),
        decreases cmd.len() - i,
    {
        s.append(" ");
        s.append(cmd[i].as_str());
        proof {
            reveal_strlit(" ");
            assert(" "@ =~= seq![' ']);
            assert(ws.take(i as int).len() >= 1);
            lemma_join_push(ws.take(i as int), ws[i as int]);
            assert(ws.take(i + 1) =~= ws.take(i as int).push(ws[i as int]));
            assert(cmd[i as int].deep_view() == ws[i as int]);
        }
        i = i + 1;
    }
    proof {
        assert(ws.take(ws.len() as int) =~= ws);
    }
    s
}

// ---------------------------------------------------------------------------
// The entry file: one desktop-entry-style record per application
// ---------------------------------------------------------------------------

pub open spec fn bool_text(b: bool) -> Seq<char> {
    if b {
        "true"@
    } else {
        "false"@
    }
}

/// The canonical entry file for `a`: a fixed header, then one `key=value`
/// line for each persisted field, every line ended by a newline.
pub open spec fn render(a: AppModel) -> Seq<char> {
    "[Desktop Entry]\nType=Application\nName="@ + a.id + "\nExec="@ + join_words(a.cmd)
        + "\nAutostart="@ + bool_text(a.autostart) + "\nFlags="@ + dec_digits(a.flags as nat)
        + "\n"@
}

/// Writes the entry file for `app`.
pub fn render_app(app: &App) -> (r: String)
    ensures
        r@ == render(app@),
{
    let mut s = String::new();
    s.append("[Desktop Entry]\nType=Application\nName=");
    s.append(app.id.as_str());
    s.append("\nExec=");
    let joined = join_cmd(&app.cmd);
    s.append(joined.as_str());
    s.append("\nAutostart=");
    if app.autostart {
        s.append("true");
    } else {
        s.append("false");
    }
    s.append("\nFlags=");
    let numeral = u32_to_dec(app.flags);
    s.append(numeral.as_str());
    s.append("\n");
    proof {
        assert(s@ =~= render(app@));
    }
    s
}

pub open spec fn strip_pre(s: Seq<char>, p: Seq<char>) -> Option<Seq<char>> {
    if p.is_prefix_of(s) {
        Some(s.skip(p.len() as int))
    } else {
        None
    }
}

pub open spec fn parse_bool(s: Seq<char>) -> Option<bool> {
    if s == "true"@ {
        Some(true)
    } else if s == "false"@ {
        Some(false)
    } else {
        None
    }
}

pub open spec fn parse_tail_flags(id: Seq<char>, cmd: Seq<Seq<char>>, b: bool, s: Seq<char>) -> Option<AppModel> {
    match take_seg(s, '\n') {
        None => None,
        Some((l, r)) => match strip_pre(l, "Flags="@) {
            None => None,
            Some(fv) => match parse_flags(fv) {
                None => None,
                Some(fl) => if r.len() == 0 {
                    Some(AppModel { id, autostart: b, cmd, flags: fl })
                } else {
                    None
                },
            },
        },
    }
}

pub open spec fn parse_tail_autostart(id: Seq<char>, cmd: Seq<Seq<char>>, s: Seq<char>) -> Option<AppModel> {
    match take_seg(s, '\n') {
        None => None,
        Some((l, r)) => match strip_pre(l, "Autostart="@) {
            None => None,
            Some(av) => match parse_bool(av) {
                None => None,
                Some(b) => parse_tail_flags(id, cmd, b, r),
            },
        },
    }
}

pub open spec fn parse_tail_exec(id: Seq<char>, s: Seq<char>) -> Option<AppModel> {
    match take_seg(s, '\n') {
        None => None,
        Some((l, r)) => match strip_pre(l, "Exec="@) {
            None => None,
            Some(ev) => parse_tail_autostart(id, split_words(ev), r),
        },
    }
}

pub open spec fn parse_tail_name(s: Seq<char>) -> Option<AppModel> {
    match take_seg(s, '\n') {
        None => None,
        Some((l, r)) => match strip_pre(l, "Name="@) {
            None => None,
            Some(id) => parse_tail_exec(id, r),
        },
    }
}

pub open spec fn parse_tail_type(s: Seq<char>) -> Option<AppModel> {
    match take_seg(s, '\n') {
        None => None,
        Some((l, r)) => if l == "Type=Application"@ {
            parse_tail_name(r)
        } else {
            None
        },
    }
}

/// What an entry file parses to: the strict reading of the canonical format,
/// `None` for any file that is not the exact rendering of some entry.
pub open spec fn parse_entry(s: Seq<char>) -> Option<AppModel> {
    match take_seg(s, '\n') {
        None => None,
        Some((l, r)) => if l == "[Desktop Entry]"@ {
            parse_tail_type(r)
        } else {
            None
        },
    }
}

/// Splits a stored `Exec` value back into command words.
pub fn split_cmd(s: &String) -> (r: Vec<String>)
    ensures
        r.deep_view() == split_words(s@),
{
    let mut parts: Vec<String> = Vec::new();
    let n = s.as_str().unicode_len();
    let mut pos: usize = 0;
    proof {
        assert(s@.skip(0) =~= s@);
        assert(parts.deep_view() =~~= Seq::<Seq<char>>::empty());
        assert(split_words(s@) =~~= parts.deep_view() + split_words(s@));
    }
    loop
        invariant
            pos <= n,
            n == s@.len(),
            split_words(s@) == parts.deep_view() + split_words(s@.skip(pos as int)),
        decreases n - pos,
    {
        let ghost sub = s@.skip(pos as int);
        let ghost before = parts.deep_view();
        match next_seg(s.as_str(), pos, ' ') {
            Some((w, next)) => {
                proof {
                    lemma_first_index(sub, ' ');
                    assert(split_words(sub) == seq![w@] + split_words(s@.skip(next as int)));
                }
                parts.push(w);
                pos = next;
                proof {
                    assert(parts.deep_view() =~~= before + seq![sub.take(
                        first_index(sub, ' '),
                    )]);
                    assert(split_words(s@) =~~= parts.deep_view() + split_words(
                        s@.skip(pos as int),
                    ));
                }
            },
            None => {
                let tail = s.as_str().substring_char(pos, n);
                parts.push(String::from_str(tail));
                proof {
                    lemma_first_index(sub, ' ');
                    assert(split_words(sub) == seq![sub]);
                    assert(tail@ =~= sub);
                    assert(parts.deep_view() =~~= before + seq![sub]);
                    assert(split_words(s@) =~~= parts.deep_view());
                }
                return parts;
            },
        }
    }
}

/// Reads an entry file; `None` when it is not the canonical rendering of any
/// entry.
pub fn parse_app(text: &str) -> (r: Option<App>)
    ensures
        match r {
            Some(app) => parse_entry(text@) == Some(app@),
            None => parse_entry(text@) is None,
        },
{
    proof {
        assert(text@.skip(0) =~= text@);
    }
    let (l1, p1) = match next_seg(text, 0, '\n') {
        Some(x) => x,
        None => {
            return None;
        },
    };
    let ok1 = l1 == String::from_str("[Desktop Entry]");
    if !ok1 {
        return None;
    }
    let (l2, p2) = match next_seg(text, p1, '\n') {
        Some(x) => x,
        None => {
            return None;
        },
    };
    let ok2 = l2 == String::from_str("Type=Application");
    if !ok2 {
        return None;
    }
    let (l3, p3) = match next_seg(text, p2, '\n') {
        Some(x) => x,
        None => {
            return None;
        },
    };
    let id = match strip_prefix(l3.as_str(), "Name=") {
        Some(x) => x,
        None => {
            return None;
        },
    };
    let (l4, p4) = match next_seg(text, p3, '\n') {
        Some(x) => x,
        None => {
            return None;
        },
    };
    let exec_val = match strip_prefix(l4.as_str(), "Exec=") {
        Some(x) => x,
        None => {
            return None;
        },
    };
    let cmd = split_cmd(&exec_val);
    let (l5, p5) = match next_seg(text, p4, '\n') {
        Some(x) => x,
        None => {
            return None;
        },
    };
    let auto_val = match strip_prefix(l5.as_str(), "Autostart=") {
        Some(x) => x,
        None => {
            return None;
        },
    };
    let auto_true = auto_val == String::from_str("true");
    let auto_false = auto_val == String::from_str("false");
    if !auto_true && !auto_false {
        return None;
    }
    let (l6, p6) = match next_seg(text, p5, '\n') {
        Some(x) => x,
        None => {
            return None;
        },
    };
    let flags_val = match strip_prefix(l6.as_str(), "Flags=") {
        Some(x) => x,
        None => {
            return None;
        },
    };
    let flags = match dec_to_u32(flags_val.as_str()) {
        Some(x) => x,
        None => {
            return None;
        },
    };
    let nlen = text.unicode_len();
    if p6 != nlen {
        proof {
            assert(text@.skip(p6 as int).len() != 0);
        }
        return None;
    }
    proof {
        assert(text@.skip(p6 as int).len() == 0);
    }
    Some(App { id, autostart: auto_true, cmd, flags })
}

/// A single concrete literal lacks the newline character.
proof fn lemma_literal_facts()
    ensures
        "[Desktop Entry]\nType=Application\nName="@ =~= "[Desktop Entry]"@ + seq!['\n']
            + "Type=Application"@ + seq!['\n'] + "Name="@,
        "\nExec="@ =~= seq!['\n'] + "Exec="@,
        "\nAutostart="@ =~= seq!['\n'] + "Autostart="@,
        "\nFlags="@ =~= seq!['\n'] + "Flags="@,
        "\n"@ =~= seq!['\n'],
        !("[Desktop Entry]"@).contains('\n'),
        !("Type=Application"@).contains('\n'),
        !("Name="@).contains('\n'),
        !("Exec="@).contains('\n'),
        !("Autostart="@).contains('\n'),
        !("Flags="@).contains('\n'),
        !("true"@).contains('\n'),
        !("false"@).contains('\n'),
        "true"@ != "false"@,
{
    reveal_strlit("[Desktop Entry]\nType=Application\nName=");
    reveal_strlit("\nExec=");
    reveal_strlit("\nAutostart=");
    reveal_strlit("\nFlags=");
    reveal_strlit("\n");
    reveal_strlit("[Desktop Entry]");
    reveal_strlit("Type=Application");
    reveal_strlit("Name=");
    reveal_strlit("Exec=");
    reveal_strlit("Autostart=");
    reveal_strlit("Flags=");
    reveal_strlit("true");
    reveal_strlit("false");
    assert(!("[Desktop Entry]"@).contains('\n')) by {
        if ("[Desktop Entry]"@).contains('\n') {
            let i = choose|i: int|
                0 <= i < ("[Desktop Entry]"@).len() && ("[Desktop Entry]"@)[i] == '\n';
        }
    }
    assert(!("Type=Application"@).contains('\n')) by {
        if ("Type=Application"@).contains('\n') {
            let i = choose|i: int|
                0 <= i < ("Type=Application"@).len() && ("Type=Application"@)[i] == '\n';
        }
    }
    assert(!("Name="@).contains('\n')) by {
        if ("Name="@).contains('\n') {
            let i = choose|i: int| 0 <= i < ("Name="@).len() && ("Name="@)[i] == '\n';
        }
    }
    assert(!("Exec="@).contains('\n')) by {
        if ("Exec="@).contains('\n') {
            let i = choose|i: int| 0 <= i < ("Exec="@).len() && ("Exec="@)[i] == '\n';
        }
    }
    assert(!("Autostart="@).contains('\n')) by {
        if ("Autostart="@).contains('\n') {
            let i = choose|i: int| 0 <= i < ("Autostart="@).len() && ("Autostart="@)[i] == '\n';
        }
    }
    assert(!("Flags="@).contains('\n')) by {
        if ("Flags="@).contains('\n') {
            let i = choose|i: int| 0 <= i < ("Flags="@).len() && ("Flags="@)[i] == '\n';
        }
    }
    assert(!("true"@).contains('\n')) by {
        if ("true"@).contains('\n') {
            let i = choose|i: int| 0 <= i < ("true"@).len() && ("true"@)[i] == '\n';
        }
    }
    assert(!("false"@).contains('\n')) by {
        if ("false"@).contains('\n') {
            let i = choose|i: int| 0 <= i < ("false"@).len() && ("false"@)[i] == '\n';
        }
    }
    assert(("true"@).len() != ("false"@).len());
}

/// Every split of a value splits into at least one word.
pub proof fn lemma_split_words_len(s: Seq<char>)
    ensures
        split_words(s).len() >= 1,
{
}

/// Splitting a value at spaces and joining the words back with spaces is
/// the identity: the space-joined command is preserved by any round trip.
pub proof fn lemma_join_split(s: Seq<char>)
    ensures
        join_words(split_words(s)) == s,
    decreases s.len(),
{
    lemma_first_index(s, ' ');
    let i = first_index(s, ' ');
    if 0 <= i < s.len() {
        lemma_join_split(s.skip(i + 1));
        lemma_split_words_len(s.skip(i + 1));
        let rest = split_words(s.skip(i + 1));
        let whole = seq![s.take(i)] + rest;
        assert(whole[0] == s.take(i));
        assert(whole.skip(1) =~= rest);
        if rest.len() == 1 {
            assert(join_words(whole) == s.take(i) + seq![' '] + join_words(rest));
        }
        assert(join_words(split_words(s)) == s.take(i) + seq![' '] + s.skip(i + 1));
        assert(s.take(i) + seq![' '] + s.skip(i + 1) =~= s);
    }
}

/// Round trip up to word splitting: parsing the canonical rendering of a
/// line-safe entry recovers the entry with its command space-split.
#[verifier::rlimit(60)]
pub proof fn lemma_render_parse_words(a: AppModel)
    requires
        crate::app::line_safe(a),
    ensures
        parse_entry(render(a)) == Some(
            AppModel {
                id: a.id,
                autostart: a.autostart,
                cmd: split_words(join_words(a.cmd)),
                flags: a.flags,
            },
        ),
{
    lemma_literal_facts();
    let nl = seq!['\n'];
    let jw = join_words(a.cmd);
    let bt = bool_text(a.autostart);
    let dd = dec_digits(a.flags as nat);
    let s6 = "Flags="@ + dd + nl + Seq::<char>::empty();
    let s5 = "Autostart="@ + bt + nl + s6;
    let s4 = "Exec="@ + jw + nl + s5;
    let s3 = "Name="@ + a.id + nl + s4;
    let s2 = "Type=Application"@ + nl + s3;
    let s1 = "[Desktop Entry]"@ + nl + s2;
    assert(render(a) =~= s1);

    lemma_take_seg_concat("[Desktop Entry]"@, s2, '\n');
    assert(parse_entry(render(a)) == parse_tail_type(s2));

    lemma_take_seg_concat("Type=Application"@, s3, '\n');
    assert(parse_tail_type(s2) == parse_tail_name(s3));

    lemma_concat_contains("Name="@, a.id, '\n');
    lemma_take_seg_concat("Name="@ + a.id, s4, '\n');
    assert(("Name="@).is_prefix_of("Name="@ + a.id)) by {
        assert(("Name="@ + a.id).take(("Name="@).len() as int) =~= "Name="@);
    }
    assert(("Name="@ + a.id).skip(("Name="@).len() as int) =~= a.id);
    assert(parse_tail_name(s3) == parse_tail_exec(a.id, s4));

    lemma_join_lacks(a.cmd, '\n');
    lemma_concat_contains("Exec="@, jw, '\n');
    lemma_take_seg_concat("Exec="@ + jw, s5, '\n');
    assert(("Exec="@).is_prefix_of("Exec="@ + jw)) by {
        assert(("Exec="@ + jw).take(("Exec="@).len() as int) =~= "Exec="@);
    }
    assert(("Exec="@ + jw).skip(("Exec="@).len() as int) =~= jw);
    let cmd2 = split_words(jw);
    assert(parse_tail_exec(a.id, s4) == parse_tail_autostart(a.id, cmd2, s5));

    lemma_concat_contains("Autostart="@, bt, '\n');
    lemma_take_seg_concat("Autostart="@ + bt, s6, '\n');
    assert(("Autostart="@).is_prefix_of("Autostart="@ + bt)) by {
        assert(("Autostart="@ + bt).take(("Autostart="@).len() as int) =~= "Autostart="@);
    }
    assert(("Autostart="@ + bt).skip(("Autostart="@).len() as int) =~= bt);
    assert(parse_bool(bt) == Some(a.autostart));
    assert(parse_tail_autostart(a.id, cmd2, s5) == parse_tail_flags(a.id, cmd2, a.autostart, s6));

    lemma_dec_digits_chars(a.flags as nat);
    lemma_digits_lack(dd, '\n');
    lemma_concat_contains("Flags="@, dd, '\n');
    lemma_take_seg_concat("Flags="@ + dd, Seq::<char>::empty(), '\n');
    assert(("Flags="@).is_prefix_of("Flags="@ + dd)) by {
        assert(("Flags="@ + dd).take(("Flags="@).len() as int) =~= "Flags="@);
    }
    assert(("Flags="@ + dd).skip(("Flags="@).len() as int) =~= dd);
    lemma_dec_round_trip(a.flags as nat);
    assert(parse_flags(dd) == Some(a.flags));
    assert(parse_tail_flags(a.id, cmd2, a.autostart, s6) == Some(
        AppModel { id: a.id, autostart: a.autostart, cmd: cmd2, flags: a.flags },
    ));
}

/// Round trip: parsing the canonical rendering of a storable entry recovers
/// exactly that entry.
pub proof fn lemma_render_parse(a: AppModel)
    requires
        crate::app::storable(a),
    ensures
        parse_entry(render(a)) == Some(a),
{
    lemma_render_parse_words(a);
    lemma_split_join(a.cmd);
}

} // verus!

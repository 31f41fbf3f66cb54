//! What the terminal sends to the program running in it: escape sequences
//! for named keys, control bytes, mouse reports and the byte position of a
//! cell column within a line of text.
use vstd::prelude::*;
use crate::text::{decimal, push_decimal, str_chars, string_from_chars};

verus! {

// ---------------------------------------------------------------------------
// named keys
// ---------------------------------------------------------------------------

/// The decimal digits of `n` as ASCII bytes.
pub open spec fn dec_bytes(n: nat) -> Seq<u8>
    decreases n,
{
    if n < 10 {
        seq![(48 + n) as u8]
    } else {
        dec_bytes(n / 10).push((48 + n % 10) as u8)
    }
}

/// The modifier parameter of a CSI sequence: 1 plus 1 for shift, 2 for alt
/// and 4 for control.
pub open spec fn modifier_param(shift: bool, control: bool, alt: bool) -> nat {
    (1 + (if shift {
        1int
    } else {
        0
    }) + (if alt {
        2int
    } else {
        0
    }) + (if control {
        4int
    } else {
        0
    })) as nat
}

/// `ESC [ final`, or `ESC [ 1 ; m final` with modifiers.
pub open spec fn csi_key(final_byte: u8, m: nat) -> Seq<u8> {
    if m > 1 {
        seq![0x1bu8, 91u8, 49u8, 59u8] + dec_bytes(m) + seq![final_byte]
    } else {
        seq![0x1bu8, 91u8, final_byte]
    }
}

/// `ESC [ num ~`, or `ESC [ num ; m ~` with modifiers.
pub open spec fn csi_tilde(num: nat, m: nat) -> Seq<u8> {
    if m > 1 {
        seq![0x1bu8, 91u8] + dec_bytes(num) + seq![59u8] + dec_bytes(m) + seq![126u8]
    } else {
        seq![0x1bu8, 91u8] + dec_bytes(num) + seq![126u8]
    }
}

/// `ESC O final` (SS3), or the CSI form with modifiers.
pub open spec fn ss3_or_csi(final_byte: u8, m: nat) -> Seq<u8> {
    if m > 1 {
        csi_key(final_byte, m)
    } else {
        seq![0x1bu8, 79u8, final_byte]
    }
}

/// The bytes that a named key sends, with its modifiers; `None` for a name
/// the terminal does not encode (tab, enter, backspace and escape only
/// without modifiers, except shift-tab).
pub open spec fn key_sequence(name: Seq<char>, shift: bool, control: bool, alt: bool) -> Option<
    Seq<u8>,
> {
    let m = modifier_param(shift, control, alt);
    let plain = m <= 1;
    if name == "up"@ {
        Some(csi_key(65, m))
    } else if name == "down"@ {
        Some(csi_key(66, m))
    } else if name == "right"@ {
        Some(csi_key(67, m))
    } else if name == "left"@ {
        Some(csi_key(68, m))
    } else if name == "home"@ {
        Some(csi_key(72, m))
    } else if name == "end"@ {
        Some(csi_key(70, m))
    } else if name == "insert"@ {
        Some(csi_tilde(2, m))
    } else if name == "delete"@ {
        Some(csi_tilde(3, m))
    } else if name == "pageup"@ || name == "page_up"@ {
        Some(csi_tilde(5, m))
    } else if name == "pagedown"@ || name == "page_down"@ {
        Some(csi_tilde(6, m))
    } else if name == "f1"@ {
        Some(ss3_or_csi(80, m))
    } else if name == "f2"@ {
        Some(ss3_or_csi(81, m))
    } else if name == "f3"@ {
        Some(ss3_or_csi(82, m))
    } else if name == "f4"@ {
        Some(ss3_or_csi(83, m))
    } else if name == "f5"@ {
        Some(csi_tilde(15, m))
    } else if name == "f6"@ {
        Some(csi_tilde(17, m))
    } else if name == "f7"@ {
        Some(csi_tilde(18, m))
    } else if name == "f8"@ {
        Some(csi_tilde(19, m))
    } else if name == "f9"@ {
        Some(csi_tilde(20, m))
    } else if name == "f10"@ {
        Some(csi_tilde(21, m))
    } else if name == "f11"@ {
        Some(csi_tilde(23, m))
    } else if name == "f12"@ {
        Some(csi_tilde(24, m))
    } else if name == "tab"@ && plain {
        Some(seq![9u8])
    } else if name == "tab"@ && shift && !control && !alt {
        Some(seq![0x1bu8, 91u8, 90u8])
    } else if (name == "enter"@ || name == "return"@) && plain {
        Some(seq![13u8])
    } else if name == "backspace"@ && plain {
        Some(seq![0x7fu8])
    } else if name == "escape"@ && plain {
        Some(seq![0x1bu8])
    } else {
        None
    }
}

/// Appends the decimal digits of `n` (below 100) as ASCII bytes.
fn push_small_decimal(out: &mut Vec<u8>, n: u8)
    requires
        n < 100,
    ensures
        final(out)@ == old(out)@ + dec_bytes(n as nat),
{
    if n >= 10 {
        out.push(48 + n / 10);
        out.push(48 + n % 10);
        proof {
            let q = (n / 10) as nat;
            assert(q < 10);
            assert(dec_bytes(q) == seq![(48 + q) as u8]);
            assert(dec_bytes(n as nat) == dec_bytes(q).push((48 + n % 10) as u8));
            assert(final(out)@ =~= old(out)@ + dec_bytes(n as nat));
        }
    } else {
        out.push(48 + n);
        proof {
            assert(final(out)@ =~= old(out)@ + dec_bytes(n as nat));
        }
    }
}

fn csi_key_bytes(final_byte: u8, m: u8) -> (r: Vec<u8>)
    requires
        1 <= m < 100,
    ensures
        r@ == csi_key(final_byte, m as nat),
{
    let mut out: Vec<u8> = Vec::new();
    out.push(0x1b);
    out.push(91u8);
    if m > 1 {
        out.push(49u8);
        out.push(59u8);
        push_small_decimal(&mut out, m);
    }
    out.push(final_byte);
    proof {
        if m > 1 {
            assert(out@ =~= csi_key(final_byte, m as nat));
        } else {
            assert(out@ =~= csi_key(final_byte, m as nat));
        }
    }
    out
}

fn csi_tilde_bytes(num: u8, m: u8) -> (r: Vec<u8>)
    requires
        1 <= m < 100,
        num < 100,
    ensures
        r@ == csi_tilde(num as nat, m as nat),
{
    let mut out: Vec<u8> = Vec::new();
    out.push(0x1b);
    out.push(91u8);
    push_small_decimal(&mut out, num);
    if m > 1 {
        out.push(59u8);
        push_small_decimal(&mut out, m);
    }
    out.push(126u8);
    proof {
        assert(out@ =~= csi_tilde(num as nat, m as nat));
    }
    out
}

fn ss3_or_csi_bytes(final_byte: u8, m: u8) -> (r: Vec<u8>)
    requires
        1 <= m < 100,
    ensures
        r@ == ss3_or_csi(final_byte, m as nat),
{
    if m > 1 {
        csi_key_bytes(final_byte, m)
    } else {
        let out = vec![0x1b, 79u8, final_byte];
        assert(out@ =~= ss3_or_csi(final_byte, m as nat));
        out
    }
}

/// Whether `s` holds exactly the characters of `lit`.
pub fn str_is(s: &str, lit: &str) -> (r: bool)
    ensures
        r == (s@ == lit@),
{
    let a = str_chars(s);
    let b = str_chars(lit);
    if a.len() != b.len() {
        return false;
    }
    let mut i: usize = 0;
    while i < a.len()
        invariant
            a@ == s@,
            b@ == lit@,
            a@.len() == b@.len(),
            i <= a@.len(),
            forall|j: int| 0 <= j < i ==> a@[j] == b@[j],
        decreases a@.len() - i,
    {
        if a[i] != b[i] {
            return false;
        }
        i = i + 1;
    }
    assert(a@ =~= b@);
    true
}

/// The modifier number adds up the modifiers held, as xterm counts them:
/// 1 with none, and on top 1 for shift, 2 for alt and 4 for control.
pub proof fn law_modifiers_add_up(shift: bool, control: bool, alt: bool)
    ensures
        modifier_param(false, false, false) == 1,
        modifier_param(true, false, false) == 2,
        modifier_param(false, false, true) == 3,
        modifier_param(false, true, false) == 5,
        modifier_param(shift, control, alt) - 1 == (modifier_param(shift, false, false) - 1) + (
        modifier_param(false, control, false) - 1) + (modifier_param(false, false, alt) - 1),
{
}

/// The digits of a number below 100, as ASCII bytes.
pub open spec fn two_digit_bytes(n: nat) -> Seq<u8> {
    if n < 10 {
        seq![(48 + n) as u8]
    } else {
        seq![(48 + n / 10) as u8, (48 + n % 10) as u8]
    }
}

/// The byte sequences of named keys, written out: the modifier number `m`
/// is 1 plus 1 for shift, 2 for alt and 4 for control, so one digit from 1
/// to 8, and it is 1 exactly without modifiers. Then a cursor key sends
/// `ESC [ F`, or `ESC [ 1 ; m F` with modifiers; a key numbered `n` sends
/// `ESC [ n ~`, or `ESC [ n ; m ~`; F1 to F4 send `ESC O F`, or the
/// modified cursor form.
pub proof fn law_key_bytes_written_out(final_byte: u8, num: nat, shift: bool, control: bool, alt: bool)
    requires
        num < 100,
    ensures
        ({
            let m = modifier_param(shift, control, alt);
            let digit = (48 + m) as u8;
            &&& 1 <= m <= 8
            &&& (m == 1 <==> !shift && !control && !alt)
            &&& dec_bytes(m) == seq![digit]
            &&& dec_bytes(num) == two_digit_bytes(num)
            &&& csi_key(final_byte, m) == if m == 1 {
                seq![0x1bu8, 91u8, final_byte]
            } else {
                seq![0x1bu8, 91u8, 49u8, 59u8, digit, final_byte]
            }
            &&& csi_tilde(num, m) == if m == 1 {
                seq![0x1bu8, 91u8] + two_digit_bytes(num) + seq![126u8]
            } else {
                seq![0x1bu8, 91u8] + two_digit_bytes(num) + seq![59u8, digit, 126u8]
            }
            &&& ss3_or_csi(final_byte, m) == if m == 1 {
                seq![0x1bu8, 79u8, final_byte]
            } else {
                seq![0x1bu8, 91u8, 49u8, 59u8, digit, final_byte]
            }
        }),
{
    let m = modifier_param(shift, control, alt);
    let digit = (48 + m) as u8;
    assert(dec_bytes(m) == seq![digit]);
    if num >= 10 {
        assert(dec_bytes(num / 10) == seq![(48 + num / 10) as u8]);
        assert(dec_bytes(num) =~= two_digit_bytes(num));
    }
    if m > 1 {
        assert(csi_key(final_byte, m) =~= seq![0x1bu8, 91u8, 49u8, 59u8, digit, final_byte]);
        assert(csi_tilde(num, m) =~= seq![0x1bu8, 91u8] + two_digit_bytes(num) + seq![59u8, digit, 126u8]);
    }
}

/// The name of function key `k` (1 to 12): `f` and its number.
pub open spec fn fkey_name(k: nat) -> Seq<char> {
    if k < 10 {
        seq!['f', (48 + k) as char]
    } else {
        seq!['f', '1', (48 + k - 10) as char]
    }
}

/// The number that xterm sends for function key `k` from 5 to 12: 15 for
/// F5, then counting on from 17 for F6 to F10, and on from 23 for F11 and
/// F12 (16 and 22 are not used).
pub open spec fn fkey_number(k: nat) -> nat {
    if k == 5 {
        15
    } else if k <= 10 {
        k + 11
    } else {
        k + 12
    }
}

/// Function keys send xterm's sequences: F1 to F4 the SS3 forms with final
/// bytes `P` to `S` in order, F5 to F12 the numbered `~` forms with
/// numbers that grow with the key, so that no two function keys send the
/// same bytes.
#[verifier::spinoff_prover]
#[verifier::rlimit(100)]
pub proof fn law_function_keys(k: nat, j: nat, shift: bool, control: bool, alt: bool)
    requires
        1 <= k <= 12,
        1 <= j <= 12,
    ensures
        key_sequence(fkey_name(k), shift, control, alt) == Some(
            if k <= 4 {
                ss3_or_csi((79 + k) as u8, modifier_param(shift, control, alt))
            } else {
                csi_tilde(fkey_number(k), modifier_param(shift, control, alt))
            },
        ),
        5 <= k < j ==> fkey_number(k) < fkey_number(j),
        fkey_number(5) == 15 && fkey_number(12) == 24,
{
    reveal_strlit("up");
    reveal_strlit("down");
    reveal_strlit("right");
    reveal_strlit("left");
    reveal_strlit("home");
    reveal_strlit("end");
    reveal_strlit("insert");
    reveal_strlit("delete");
    reveal_strlit("pageup");
    reveal_strlit("page_up");
    reveal_strlit("pagedown");
    reveal_strlit("page_down");
    reveal_strlit("f1");
    reveal_strlit("f2");
    reveal_strlit("f3");
    reveal_strlit("f4");
    reveal_strlit("f5");
    reveal_strlit("f6");
    reveal_strlit("f7");
    reveal_strlit("f8");
    reveal_strlit("f9");
    reveal_strlit("f10");
    reveal_strlit("f11");
    reveal_strlit("f12");
    reveal_strlit("tab");
    reveal_strlit("enter");
    reveal_strlit("return");
    reveal_strlit("backspace");
    reveal_strlit("escape");
    let n = fkey_name(k);
    if k == 1 {
        assert(n =~= "f1"@);
    } else if k == 2 {
        assert(n =~= "f2"@);
    } else if k == 3 {
        assert(n =~= "f3"@);
    } else if k == 4 {
        assert(n =~= "f4"@);
    } else if k == 5 {
        assert(n =~= "f5"@);
    } else if k == 6 {
        assert(n =~= "f6"@);
    } else if k == 7 {
        assert(n =~= "f7"@);
    } else if k == 8 {
        assert(n =~= "f8"@);
    } else if k == 9 {
        assert(n =~= "f9"@);
    } else if k == 10 {
        assert(n =~= "f10"@);
    } else if k == 11 {
        assert(n =~= "f11"@);
    } else {
        assert(n =~= "f12"@);
    }
}

/// Whether a byte is an ASCII digit.
pub open spec fn digit_byte(b: u8) -> bool {
    48 <= b && b <= 57
}

/// The key that a numbered `~` sequence names, by xterm's numbering.
pub open spec fn numbered_key(n: int) -> Seq<char> {
    if n == 2 {
        "insert"@
    } else if n == 3 {
        "delete"@
    } else if n == 5 {
        "pageup"@
    } else if n == 6 {
        "pagedown"@
    } else if n == 15 {
        "f5"@
    } else if 17 <= n <= 21 {
        fkey_name((n - 11) as nat)
    } else if 23 <= n <= 24 {
        fkey_name((n - 12) as nat)
    } else {
        Seq::empty()
    }
}

/// The key that a cursor sequence's final letter names.
pub open spec fn lettered_key(f: u8) -> Seq<char> {
    if f == 65 {
        "up"@
    } else if f == 66 {
        "down"@
    } else if f == 67 {
        "right"@
    } else if f == 68 {
        "left"@
    } else if f == 72 {
        "home"@
    } else if f == 70 {
        "end"@
    } else {
        Seq::empty()
    }
}

/// Reads back the key that a terminal sequence names: `ESC O` and a final
/// byte from `P` is F1 on; a sequence ending in `~` names its number's key;
/// any other `ESC [` sequence names F1 to F4 by a final `P` to `S`, and
/// otherwise the key of its final letter.
pub open spec fn key_of_sequence(b: Seq<u8>) -> Seq<char> {
    if b.len() < 3 {
        Seq::empty()
    } else if b[1] == 79 {
        fkey_name((b.last() - 79) as nat)
    } else if b.last() == 126 {
        numbered_key(
            if digit_byte(b[3]) {
                10 * (b[2] - 48) + (b[3] - 48)
            } else {
                b[2] - 48
            },
        )
    } else if 80 <= b.last() <= 83 {
        fkey_name((b.last() - 79) as nat)
    } else {
        lettered_key(b.last())
    }
}

#[verifier::spinoff_prover]
#[verifier::rlimit(100)]
proof fn lemma_identify_editing_key(name: Seq<char>, shift: bool, control: bool, alt: bool)
    requires
        ({
            ||| name == "up"@
            ||| name == "down"@
            ||| name == "right"@
            ||| name == "left"@
            ||| name == "home"@
            ||| name == "end"@
            ||| name == "insert"@
            ||| name == "delete"@
            ||| name == "pageup"@
            ||| name == "pagedown"@
        }),
    ensures
        key_sequence(name, shift, control, alt) matches Some(b) && key_of_sequence(b) == name,
{
    reveal_strlit("up");
    reveal_strlit("down");
    reveal_strlit("right");
    reveal_strlit("left");
    reveal_strlit("home");
    reveal_strlit("end");
    reveal_strlit("insert");
    reveal_strlit("delete");
    reveal_strlit("pageup");
    reveal_strlit("page_up");
    reveal_strlit("pagedown");
    reveal_strlit("page_down");
    reveal_strlit("f1");
    reveal_strlit("f2");
    reveal_strlit("f3");
    reveal_strlit("f4");
    reveal_strlit("f5");
    reveal_strlit("f6");
    reveal_strlit("f7");
    reveal_strlit("f8");
    reveal_strlit("f9");
    reveal_strlit("f10");
    reveal_strlit("f11");
    reveal_strlit("f12");
    reveal_strlit("tab");
    reveal_strlit("enter");
    reveal_strlit("return");
    reveal_strlit("backspace");
    reveal_strlit("escape");
    if name == "up"@ {
        lemma_letter_key(65, shift, control, alt);
    } else if name == "down"@ {
        lemma_letter_key(66, shift, control, alt);
    } else if name == "right"@ {
        lemma_letter_key(67, shift, control, alt);
    } else if name == "left"@ {
        lemma_letter_key(68, shift, control, alt);
    } else if name == "home"@ {
        lemma_letter_key(72, shift, control, alt);
    } else if name == "end"@ {
        lemma_letter_key(70, shift, control, alt);
    } else if name == "insert"@ {
        lemma_tilde_key(2, shift, control, alt);
    } else if name == "delete"@ {
        lemma_tilde_key(3, shift, control, alt);
    } else if name == "pageup"@ {
        lemma_tilde_key(5, shift, control, alt);
    } else if name == "pagedown"@ {
        lemma_tilde_key(6, shift, control, alt);
    }
}

#[verifier::spinoff_prover]
#[verifier::rlimit(100)]
proof fn lemma_identify_function_key(name: Seq<char>, shift: bool, control: bool, alt: bool)
    requires
        ({
            ||| name == "f1"@
            ||| name == "f2"@
            ||| name == "f3"@
            ||| name == "f4"@
            ||| name == "f5"@
            ||| name == "f6"@
            ||| name == "f7"@
            ||| name == "f8"@
            ||| name == "f9"@
            ||| name == "f10"@
            ||| name == "f11"@
            ||| name == "f12"@
        }),
    ensures
        key_sequence(name, shift, control, alt) matches Some(b) && key_of_sequence(b) == name,
{
    reveal_strlit("up");
    reveal_strlit("down");
    reveal_strlit("right");
    reveal_strlit("left");
    reveal_strlit("home");
    reveal_strlit("end");
    reveal_strlit("insert");
    reveal_strlit("delete");
    reveal_strlit("pageup");
    reveal_strlit("page_up");
    reveal_strlit("pagedown");
    reveal_strlit("page_down");
    reveal_strlit("f1");
    reveal_strlit("f2");
    reveal_strlit("f3");
    reveal_strlit("f4");
    reveal_strlit("f5");
    reveal_strlit("f6");
    reveal_strlit("f7");
    reveal_strlit("f8");
    reveal_strlit("f9");
    reveal_strlit("f10");
    reveal_strlit("f11");
    reveal_strlit("f12");
    reveal_strlit("tab");
    reveal_strlit("enter");
    reveal_strlit("return");
    reveal_strlit("backspace");
    reveal_strlit("escape");
    if name == "f5"@ {
        lemma_tilde_key(15, shift, control, alt);
    } else if name == "f6"@ {
        lemma_tilde_key(17, shift, control, alt);
        assert(fkey_name(6) =~= "f6"@);
    } else if name == "f7"@ {
        lemma_tilde_key(18, shift, control, alt);
        assert(fkey_name(7) =~= "f7"@);
    } else if name == "f8"@ {
        lemma_tilde_key(19, shift, control, alt);
        assert(fkey_name(8) =~= "f8"@);
    } else if name == "f9"@ {
        lemma_tilde_key(20, shift, control, alt);
        assert(fkey_name(9) =~= "f9"@);
    } else if name == "f10"@ {
        lemma_tilde_key(21, shift, control, alt);
        assert(fkey_name(10) =~= "f10"@);
    } else if name == "f11"@ {
        lemma_tilde_key(23, shift, control, alt);
        assert(fkey_name(11) =~= "f11"@);
    } else if name == "f12"@ {
        lemma_tilde_key(24, shift, control, alt);
        assert(fkey_name(12) =~= "f12"@);
    } else if name == "f1"@ {
        lemma_ss3_key(1, shift, control, alt);
        assert(fkey_name(1) =~= "f1"@);
    } else if name == "f2"@ {
        lemma_ss3_key(2, shift, control, alt);
        assert(fkey_name(2) =~= "f2"@);
    } else if name == "f3"@ {
        lemma_ss3_key(3, shift, control, alt);
        assert(fkey_name(3) =~= "f3"@);
    } else if name == "f4"@ {
        lemma_ss3_key(4, shift, control, alt);
        assert(fkey_name(4) =~= "f4"@);
    }
}

/// Every cursor, editing and function key sends, with any modifiers, a
/// sequence that names that key and no other: two different keys never
/// send the same bytes.
pub proof fn law_key_sequences_identify_their_keys(name: Seq<char>, shift: bool, control: bool, alt: bool)
    requires
        ({
            ||| name == "up"@
            ||| name == "down"@
            ||| name == "right"@
            ||| name == "left"@
            ||| name == "home"@
            ||| name == "end"@
            ||| name == "insert"@
            ||| name == "delete"@
            ||| name == "pageup"@
            ||| name == "pagedown"@
            ||| name == "f1"@
            ||| name == "f2"@
            ||| name == "f3"@
            ||| name == "f4"@
            ||| name == "f5"@
            ||| name == "f6"@
            ||| name == "f7"@
            ||| name == "f8"@
            ||| name == "f9"@
            ||| name == "f10"@
            ||| name == "f11"@
            ||| name == "f12"@
        }),
    ensures
        key_sequence(name, shift, control, alt) matches Some(b) && key_of_sequence(b) == name,
{
    if name == "up"@ || name == "down"@ || name == "right"@ || name == "left"@ || name == "home"@ || name == "end"@ || name == "insert"@ || name == "delete"@ || name == "pageup"@ || name == "pagedown"@ {
        lemma_identify_editing_key(name, shift, control, alt);
    } else {
        lemma_identify_function_key(name, shift, control, alt);
    }
}

proof fn lemma_letter_key(f: u8, shift: bool, control: bool, alt: bool)
    requires
        f == 65 || f == 66 || f == 67 || f == 68 || f == 70 || f == 72,
    ensures
        key_of_sequence(csi_key(f, modifier_param(shift, control, alt))) == lettered_key(f),
{
    law_key_bytes_written_out(f, 0, shift, control, alt);
}

proof fn lemma_tilde_key(n: nat, shift: bool, control: bool, alt: bool)
    requires
        n < 100,
    ensures
        key_of_sequence(csi_tilde(n, modifier_param(shift, control, alt))) == numbered_key(n as int),
{
    law_key_bytes_written_out(65, n, shift, control, alt);
    let m = modifier_param(shift, control, alt);
    let b = csi_tilde(n, m);
    if n < 10 {
        assert(two_digit_bytes(n) == seq![(48 + n) as u8]);
        assert(b[2] == (48 + n) as u8);
        assert(!digit_byte(b[3]));
    } else {
        assert(b[2] == (48 + n / 10) as u8);
        assert(b[3] == (48 + n % 10) as u8);
    }
    assert(b.last() == 126);
}

proof fn lemma_ss3_key(k: nat, shift: bool, control: bool, alt: bool)
    requires
        1 <= k <= 4,
    ensures
        key_of_sequence(ss3_or_csi((79 + k) as u8, modifier_param(shift, control, alt))) == fkey_name(k),
{
    law_key_bytes_written_out((79 + k) as u8, 0, shift, control, alt);
}

/// Encodes a named key (arrows, home, end, function keys and the like) with
/// its modifiers into the bytes a terminal application expects.
pub fn encode_key_named(name: &str, shift: bool, control: bool, alt: bool) -> (r: Option<
    Vec<u8>,
>)
    ensures
        match r {
            Some(v) => key_sequence(name@, shift, control, alt) == Some(v@),
            None => key_sequence(name@, shift, control, alt) is None,
        },
{
    let m: u8 = 1 + (if shift {
        1
    } else {
        0
    }) + (if alt {
        2
    } else {
        0
    }) + (if control {
        4
    } else {
        0
    });
    let plain = m <= 1;
    assert(m as nat == modifier_param(shift, control, alt));
    if str_is(name, "up") {
        Some(csi_key_bytes(65u8, m))
    } else if str_is(name, "down") {
        Some(csi_key_bytes(66u8, m))
    } else if str_is(name, "right") {
        Some(csi_key_bytes(67u8, m))
    } else if str_is(name, "left") {
        Some(csi_key_bytes(68u8, m))
    } else if str_is(name, "home") {
        Some(csi_key_bytes(72u8, m))
    } else if str_is(name, "end") {
        Some(csi_key_bytes(70u8, m))
    } else if str_is(name, "insert") {
        Some(csi_tilde_bytes(2, m))
    } else if str_is(name, "delete") {
        Some(csi_tilde_bytes(3, m))
    } else if str_is(name, "pageup") || str_is(name, "page_up") {
        Some(csi_tilde_bytes(5, m))
    } else if str_is(name, "pagedown") || str_is(name, "page_down") {
        Some(csi_tilde_bytes(6, m))
    } else if str_is(name, "f1") {
        Some(ss3_or_csi_bytes(80u8, m))
    } else if str_is(name, "f2") {
        Some(ss3_or_csi_bytes(81u8, m))
    } else if str_is(name, "f3") {
        Some(ss3_or_csi_bytes(82u8, m))
    } else if str_is(name, "f4") {
        Some(ss3_or_csi_bytes(83u8, m))
    } else if str_is(name, "f5") {
        Some(csi_tilde_bytes(15, m))
    } else if str_is(name, "f6") {
        Some(csi_tilde_bytes(17, m))
    } else if str_is(name, "f7") {
        Some(csi_tilde_bytes(18, m))
    } else if str_is(name, "f8") {
        Some(csi_tilde_bytes(19, m))
    } else if str_is(name, "f9") {
        Some(csi_tilde_bytes(20, m))
    } else if str_is(name, "f10") {
        Some(csi_tilde_bytes(21, m))
    } else if str_is(name, "f11") {
        Some(csi_tilde_bytes(23, m))
    } else if str_is(name, "f12") {
        Some(csi_tilde_bytes(24, m))
    } else if str_is(name, "tab") && plain {
        Some(vec![9u8])
    } else if str_is(name, "tab") && shift && !control && !alt {
        Some(vec![0x1b, 91u8, 90u8])
    } else if (str_is(name, "enter") || str_is(name, "return")) && plain {
        Some(vec![13u8])
    } else if str_is(name, "backspace") && plain {
        Some(vec![0x7f])
    } else if str_is(name, "escape") && plain {
        Some(vec![0x1b])
    } else {
        None
    }
}

// ---------------------------------------------------------------------------
// control bytes
// ---------------------------------------------------------------------------

/// The control byte for a key pressed with control, from the text the key
/// types (`key_char`) or else its non-empty name: `space` gives NUL; a
/// single character in `@`..`_` gives its low five bits; a letter gives its
/// position in the alphabet; `/` and the digits 2 to 8 give the bytes
/// terminals traditionally send for them.
pub open spec fn ctrl_byte(candidate: Option<Seq<char>>) -> Option<u8> {
    match candidate {
        None => None,
        Some(c) => if c == "space"@ {
            Some(0u8)
        } else if c.len() != 1 || c[0] >= '\u{80}' {
            None
        } else {
            let ch = c[0];
            if '@' <= ch && ch <= '_' {
                Some((ch as u32 - 64) as u8)
            } else if 'a' <= ch && ch <= 'z' {
                Some((ch as u32 - 96) as u8)
            } else if ch == '/' {
                Some(0x1fu8)
            } else if ch == '2' {
                Some(0u8)
            } else if '3' <= ch && ch <= '7' {
                Some((ch as u32 - 51 + 0x1b) as u8)
            } else if ch == '8' {
                Some(0x7fu8)
            } else {
                None
            }
        },
    }
}

/// The text that decides a control byte: the typed text when there is
/// one, else the key's name when it is not empty.
pub open spec fn ctrl_candidate(key_char: Option<Seq<char>>, key: Seq<char>) -> Option<Seq<char>> {
    match key_char {
        Some(c) => Some(c),
        None => if key.len() > 0 {
            Some(key)
        } else {
            None
        },
    }
}

/// The byte a control-modified keystroke sends, if any.
pub fn ctrl_byte_for_keystroke(key: &str, key_char: Option<&str>) -> (r: Option<u8>)
    ensures
        r == ctrl_byte(
            ctrl_candidate(
                match key_char {
                    Some(c) => Some(c@),
                    None => None,
                },
                key@,
            ),
        ),
{
    let candidate: &str = match key_char {
        Some(c) => c,
        None => {
            if key.is_empty() {
                return None;
            }
            key
        },
    };
    if str_is(candidate, "space") {
        return Some(0x00);
    }
    let chars = str_chars(candidate);
    if chars.len() != 1 {
        return None;
    }
    let c = chars[0];
    if c >= '\u{80}' {
        return None;
    }
    if c >= '@' && c <= '_' {
        Some(char_offset(c, '@', 0))
    } else if c >= 'a' && c <= 'z' {
        Some(char_offset(c, 'a', 1))
    } else if c == '/' {
        Some(0x1f)
    } else if c == '2' {
        Some(0x00)
    } else if c >= '3' && c <= '7' {
        Some(char_offset(c, '3', 0x1b))
    } else if c == '8' {
        Some(0x7f)
    } else {
        None
    }
}

/// `c`'s distance from `base`, plus `add`.
fn char_offset(c: char, base: char, add: u8) -> (r: u8)
    requires
        base <= c,
        (c as u32) - (base as u32) + add < 256,
    ensures
        r == ((c as u32) - (base as u32) + add) as u8,
{
    ((c as u32) - (base as u32)) as u8 + add
}

/// Whether a key-down event belongs to an input method composition and is
/// left to it: while composing, every key but the enter keys.
pub open spec fn skip_for_ime(has_input: bool, ime_in_progress: bool, key: Seq<char>) -> bool {
    has_input && ime_in_progress && !(key == "enter"@ || key == "return"@ || key == "kp_enter"@
        || key == "numpad_enter"@)
}

/// Whether to leave a key-down event to the input method.
pub fn should_skip_key_down_for_ime(has_input: bool, ime_in_progress: bool, key: &str) -> (r: bool)
    ensures
        r == skip_for_ime(has_input, ime_in_progress, key@),
{
    if !has_input || !ime_in_progress {
        return false;
    }
    !(str_is(key, "enter") || str_is(key, "return") || str_is(key, "kp_enter") || str_is(
        key,
        "numpad_enter",
    ))
}

// ---------------------------------------------------------------------------
// mouse reports
// ---------------------------------------------------------------------------

/// The button value of a mouse report: the base button plus 32 for motion,
/// 4 for shift, 8 for alt and 16 for control, capped at 255.
pub open spec fn mouse_button_value(base: u8, motion: bool, shift: bool, alt: bool, control: bool) -> u8 {
    let total = base + (if motion {
        32int
    } else {
        0
    }) + (if shift {
        4int
    } else {
        0
    }) + (if alt {
        8int
    } else {
        0
    }) + (if control {
        16int
    } else {
        0
    });
    if total > 255 {
        255
    } else {
        total as u8
    }
}

fn add_capped(v: u8, d: u8) -> (r: u8)
    ensures
        r == (if v + d > 255 {
            255
        } else {
            (v + d) as u8
        }),
{
    if v > 255 - d {
        255
    } else {
        v + d
    }
}

/// Computes the button value of a mouse report.
pub fn sgr_mouse_button_value(base_button: u8, motion: bool, shift: bool, alt: bool, control: bool) -> (r: u8)
    ensures
        r == mouse_button_value(base_button, motion, shift, alt, control),
{
    let mut value = base_button;
    if motion {
        value = add_capped(value, 32);
    }
    if shift {
        value = add_capped(value, 4);
    }
    if alt {
        value = add_capped(value, 8);
    }
    if control {
        value = add_capped(value, 16);
    }
    value
}

/// The SGR mouse report `ESC [ < button ; col ; row M` (press) or `m`
/// (release).
pub open spec fn sgr_report(button: u8, col: u16, row: u16, pressed: bool) -> Seq<char> {
    seq!['\u{1b}', '[', '<'] + decimal(button as nat) + seq![';'] + decimal(col as nat) + seq![';']
        + decimal(row as nat) + seq![
        if pressed {
            'M'
        } else {
            'm'
        },
    ]
}

/// Builds an SGR mouse report.
pub fn sgr_mouse_sequence(button_value: u8, col: u16, row: u16, pressed: bool) -> (r: String)
    ensures
        r@ == sgr_report(button_value, col, row, pressed),
{
    let mut out: Vec<char> = Vec::new();
    out.push('\u{1b}');
    out.push('[');
    out.push('<');
    push_decimal(&mut out, button_value as u64);
    out.push(';');
    push_decimal(&mut out, col as u64);
    out.push(';');
    push_decimal(&mut out, row as u64);
    out.push(
        if pressed {
            'M'
        } else {
            'm'
        },
    );
    assert(out@ =~= sgr_report(button_value, col, row, pressed));
    string_from_chars(out.as_slice())
}

/// The normal (X10) mouse report `ESC [ M b x y`, each value offset by 32;
/// coordinates beyond 223 are sent as 223.
pub open spec fn normal_report(button: u8, col: u16, row: u16) -> Seq<u8> {
    let cb = if button + 32 > 255 {
        255u8
    } else {
        (button + 32) as u8
    };
    let cx = (if col > 223 {
        223int
    } else {
        col as int
    }) + 32;
    let cy = (if row > 223 {
        223int
    } else {
        row as int
    }) + 32;
    seq![0x1bu8, 91u8, 77u8, cb, cx as u8, cy as u8]
}

/// Builds a normal mouse report.
pub fn normal_mouse_sequence(button_value: u8, col: u16, row: u16) -> (r: Vec<u8>)
    ensures
        r@ == normal_report(button_value, col, row),
{
    let cb = add_capped(button_value, 32);
    let cx: u8 = if col > 223 {
        223 + 32
    } else {
        col as u8 + 32
    };
    let cy: u8 = if row > 223 {
        223 + 32
    } else {
        row as u8 + 32
    };
    let r = vec![0x1b, 91u8, 77u8, cb, cx, cy];
    assert(r@ =~= normal_report(button_value, col, row));
    r
}

// ---------------------------------------------------------------------------
// columns and bytes
// ---------------------------------------------------------------------------

/// What `UnicodeWidthChar::width` of the `unicode-width` crate gives for a
/// character.
pub uninterp spec fn char_display_width(c: char) -> Option<usize>;

/// Calls `unicode_width::UnicodeWidthChar::width`: the displayed width of
/// the character in columns, `None` for a control character. The result is
/// named by `char_display_width`.
#[verifier::external_body]
pub(crate) fn unicode_char_width(c: char) -> (r: Option<usize>)
    ensures
        r == char_display_width(c),
{
    unicode_width::UnicodeWidthChar::width(c)
}

/// The number of bytes of `c` in UTF-8.
pub fn utf8_len(c: char) -> (r: usize)
    ensures
        r == vstd::utf8::encode_scalar(c as u32).len(),
        1 <= r <= 4,
{
    proof {
        vstd::utf8::char_is_scalar(c);
    }
    let v = c as u32;
    if v <= 0x7f {
        1
    } else if v <= 0x7ff {
        2
    } else if v <= 0xffff {
        3
    } else {
        4
    }
}

proof fn lemma_encode_utf8_push(s: Seq<char>, c: char)
    ensures
        vstd::utf8::encode_utf8(s.push(c)) == vstd::utf8::encode_utf8(s) + vstd::utf8::encode_scalar(
            c as u32,
        ),
    decreases s.len(),
{
    let e = vstd::utf8::encode_scalar(c as u32);
    if s.len() > 0 {
        lemma_encode_utf8_push(s.drop_first(), c);
        assert(s.push(c).drop_first() =~= s.drop_first().push(c));
        assert(s.push(c)[0] == s[0]);
        let h = vstd::utf8::encode_scalar(s[0] as u32);
        let t = vstd::utf8::encode_utf8(s.drop_first());
        assert(vstd::utf8::encode_utf8(s.push(c)) == h + (t + e));
        assert(vstd::utf8::encode_utf8(s) == h + t);
        assert(h + (t + e) =~= (h + t) + e);
    } else {
        assert(s.push(c).drop_first() =~= Seq::<char>::empty());
        assert(s.push(c)[0] == c);
        assert(vstd::utf8::encode_utf8(Seq::<char>::empty()) =~= Seq::<u8>::empty());
        assert(vstd::utf8::encode_utf8(s.push(c)) =~= e + Seq::<u8>::empty());
        assert(vstd::utf8::encode_utf8(s) =~= Seq::<u8>::empty());
        assert(vstd::utf8::encode_utf8(s.push(c)) =~= vstd::utf8::encode_utf8(s) + e);
    }
}

/// A width as the column walk counts it: control characters take none.
pub open spec fn walk_width(c: char) -> int {
    match char_display_width(c) {
        Some(w) => w as int,
        None => 0,
    }
}

/// The byte index of the character at cell column `col` (1-based) of
/// `chars[k..]`, where that part starts at byte `byte_off` and column
/// `cur`: zero-width characters are passed over; a character covers the
/// columns from its start up to its width (the sum capped at `usize::MAX`);
/// past the end, the end of the line.
pub open spec fn column_byte_index(chars: Seq<char>, k: int, byte_off: int, cur: int, col: int) -> int
    decreases chars.len() - k,
{
    if k >= chars.len() || k < 0 {
        byte_off
    } else {
        let w = walk_width(chars[k]);
        let next_off = byte_off + vstd::utf8::encode_scalar(chars[k] as u32).len();
        if w == 0 {
            column_byte_index(chars, k + 1, next_off, cur, col)
        } else {
            let next = if cur + w > usize::MAX {
                usize::MAX as int
            } else {
                cur + w
            };
            if cur == col || col < next {
                byte_off
            } else {
                column_byte_index(chars, k + 1, next_off, next, col)
            }
        }
    }
}

/// The byte index in `line` of the character shown at cell column `col`
/// (1-based; 0 counts as 1).
pub open spec fn byte_index_for_column(line: Seq<char>, col: u16) -> int {
    let c = if col < 1 {
        1int
    } else {
        col as int
    };
    if c == 1 {
        0
    } else {
        column_byte_index(line, 0, 0, 1, c)
    }
}

/// Finds the byte index in `line` of the character at cell column `col`.
pub fn byte_index_for_column_in_line(line: &str, col: u16) -> (r: usize)
    ensures
        r == byte_index_for_column(line@, col),
{
    let target: usize = if col < 1 {
        1
    } else {
        col as usize
    };
    if target == 1 {
        return 0;
    }
    let chars = str_chars(line);
    let total = line.as_bytes().len();
    let mut current_col: usize = 1;
    let mut byte_index: usize = 0;
    let mut k: usize = 0;
    let ghost s = chars@;
    while k < chars.len()
        invariant
            s == chars@,
            s == line@,
            k <= s.len(),
            byte_index == vstd::utf8::encode_utf8(s.subrange(0, k as int)).len(),
            column_byte_index(s, 0, 0, 1, target as int) == column_byte_index(
                s,
                k as int,
                byte_index as int,
                current_col as int,
                target as int,
            ),
            vstd::utf8::encode_utf8(s).len() == total,
            target as int == (if col < 1 {
                1int
            } else {
                col as int
            }),
            target != 1,
        decreases s.len() - k,
    {
        let ch = chars[k];
        let len = utf8_len(ch);
        proof {
            assert(s.subrange(0, k + 1) =~= s.subrange(0, k as int).push(ch));
            lemma_encode_utf8_push(s.subrange(0, k as int), ch);
            lemma_encode_utf8_prefix_len(s, k + 1);
        }
        let width = match unicode_char_width(ch) {
            Some(w) => w,
            None => 0,
        };
        if width == 0 {
            byte_index = byte_index + len;
            k = k + 1;
            continue;
        }
        if current_col == target {
            assert(column_byte_index(s, k as int, byte_index as int, current_col as int, target as int)
                == byte_index as int);
            return byte_index;
        }
        let next_col = if current_col > usize::MAX - width {
            usize::MAX
        } else {
            current_col + width
        };
        if target < next_col {
            assert(column_byte_index(s, k as int, byte_index as int, current_col as int, target as int)
                == byte_index as int);
            return byte_index;
        }
        current_col = next_col;
        byte_index = byte_index + len;
        k = k + 1;
    }
    proof {
        assert(s.subrange(0, k as int) =~= s);
    }
    total
}

/// The UTF-8 encoding of a prefix is no longer than that of the whole.
proof fn lemma_encode_utf8_prefix_len(s: Seq<char>, k: int)
    requires
        0 <= k <= s.len(),
    ensures
        vstd::utf8::encode_utf8(s.subrange(0, k)).len() <= vstd::utf8::encode_utf8(s).len(),
    decreases s.len() - k,
{
    if k < s.len() {
        lemma_encode_utf8_prefix_len(s, k + 1);
        assert(s.subrange(0, k + 1) =~= s.subrange(0, k).push(s[k]));
        lemma_encode_utf8_push(s.subrange(0, k), s[k]);
    } else {
        assert(s.subrange(0, k) =~= s);
    }
}

} // verus!

//! The command alphabet: one canonical character per command on emit, six
//! accepted characters per command on decode (case-insensitive), with tab,
//! newline and carriage return silently skipped.
use vstd::prelude::*;

use crate::{Clock, Command, Direction};

verus! {

/// The canonical character a command is emitted as.
pub open spec fn encode_char(c: Command) -> char {
    match c {
        Command::Move(Direction::W) => 'p',
        Command::Move(Direction::E) => 'b',
        Command::Move(Direction::SW) => 'a',
        Command::Move(Direction::SE) => 'l',
        Command::Rotate(Clock::Wise) => 'd',
        Command::Rotate(Clock::Counter) => 'k',
    }
}

/// The canonical encoding of a command sequence.
pub open spec fn encode_str(cs: Seq<Command>) -> Seq<char> {
    cs.map_values(|c: Command| encode_char(c))
}

/// The command a character decodes to, if any; letters are accepted in either
/// case.
pub open spec fn decode_char(ch: char) -> Option<Command> {
    if ch == 'p' || ch == 'P' || ch == '\'' || ch == '!' || ch == '.' || ch == '0' || ch == '3' {
        Some(Command::Move(Direction::W))
    } else if ch == 'b' || ch == 'B' || ch == 'c' || ch == 'C' || ch == 'e' || ch == 'E' || ch
        == 'f' || ch == 'F' || ch == 'y' || ch == 'Y' || ch == '2' {
        Some(Command::Move(Direction::E))
    } else if ch == 'a' || ch == 'A' || ch == 'g' || ch == 'G' || ch == 'h' || ch == 'H' || ch
        == 'i' || ch == 'I' || ch == 'j' || ch == 'J' || ch == '4' {
        Some(Command::Move(Direction::SW))
    } else if ch == 'l' || ch == 'L' || ch == 'm' || ch == 'M' || ch == 'n' || ch == 'N' || ch
        == 'o' || ch == 'O' || ch == ' ' || ch == '5' {
        Some(Command::Move(Direction::SE))
    } else if ch == 'd' || ch == 'D' || ch == 'q' || ch == 'Q' || ch == 'r' || ch == 'R' || ch
        == 'v' || ch == 'V' || ch == 'z' || ch == 'Z' || ch == '1' {
        Some(Command::Rotate(Clock::Wise))
    } else if ch == 'k' || ch == 'K' || ch == 's' || ch == 'S' || ch == 't' || ch == 'T' || ch
        == 'u' || ch == 'U' || ch == 'w' || ch == 'W' || ch == 'x' || ch == 'X' {
        Some(Command::Rotate(Clock::Counter))
    } else {
        None
    }
}

/// Every character decodes to a command: no whitespace allowed. A supplied
/// solution must satisfy this, since it is replayed one character at a time.
pub open spec fn strict_cmd_str(s: Seq<char>) -> bool {
    forall|i: int| 0 <= i < s.len() ==> decode_char(#[trigger] s[i]) is Some
}

/// Whitespace that a decode silently skips.
pub open spec fn is_skipped(ch: char) -> bool {
    ch == '\t' || ch == '\n' || ch == '\r'
}

/// Every character either decodes to a command or is skipped whitespace.
pub open spec fn valid_cmd_str(s: Seq<char>) -> bool {
    forall|i: int| 0 <= i < s.len() ==> decode_char(#[trigger] s[i]) is Some || is_skipped(s[i])
}

/// The commands a character sequence decodes to, whitespace skipped.
pub open spec fn decode_str(s: Seq<char>) -> Seq<Command>
    decreases s.len(),
{
    if s.len() == 0 {
        Seq::empty()
    } else {
        let rest = decode_str(s.drop_last());
        match decode_char(s.last()) {
            Some(c) => rest.push(c),
            None => rest,
        }
    }
}

impl Command {
    /// The canonical single-character encoding of this command.
    pub fn to_char(self) -> (c: char)
        ensures
            c == encode_char(self),
    {
        match self {
            Command::Move(Direction::W) => 'p',
            Command::Move(Direction::E) => 'b',
            Command::Move(Direction::SW) => 'a',
            Command::Move(Direction::SE) => 'l',
            Command::Rotate(Clock::Wise) => 'd',
            Command::Rotate(Clock::Counter) => 'k',
        }
    }
}

/// Decode a character, accepting either case; returns the command, or `None`
/// for skipped whitespace.
fn decode_one(ch: char) -> (r: Option<Command>)
    requires
        decode_char(ch) is Some || is_skipped(ch),
    ensures
        r == decode_char(ch),
{
    if ch == 'p' || ch == 'P' || ch == '\'' || ch == '!' || ch == '.' || ch == '0' || ch == '3' {
        Some(Command::Move(Direction::W))
    } else if ch == 'b' || ch == 'B' || ch == 'c' || ch == 'C' || ch == 'e' || ch == 'E' || ch
        == 'f' || ch == 'F' || ch == 'y' || ch == 'Y' || ch == '2' {
        Some(Command::Move(Direction::E))
    } else if ch == 'a' || ch == 'A' || ch == 'g' || ch == 'G' || ch == 'h' || ch == 'H' || ch
        == 'i' || ch == 'I' || ch == 'j' || ch == 'J' || ch == '4' {
        Some(Command::Move(Direction::SW))
    } else if ch == 'l' || ch == 'L' || ch == 'm' || ch == 'M' || ch == 'n' || ch == 'N' || ch
        == 'o' || ch == 'O' || ch == ' ' || ch == '5' {
        Some(Command::Move(Direction::SE))
    } else if ch == 'd' || ch == 'D' || ch == 'q' || ch == 'Q' || ch == 'r' || ch == 'R' || ch
        == 'v' || ch == 'V' || ch == 'z' || ch == 'Z' || ch == '1' {
        Some(Command::Rotate(Clock::Wise))
    } else if ch == 'k' || ch == 'K' || ch == 's' || ch == 'S' || ch == 't' || ch == 'T' || ch
        == 'u' || ch == 'U' || ch == 'w' || ch == 'W' || ch == 'x' || ch == 'X' {
        Some(Command::Rotate(Clock::Counter))
    } else {
        None
    }
}

/// Decode a whole command string. Every character must belong to the command
/// alphabet or be skipped whitespace; anything else is a corrupted solution
/// string, which this library rejects at the boundary.
pub fn string_to_commands(s: &str) -> (out: Vec<Command>)
    requires
        valid_cmd_str(s@),
    ensures
        out@ == decode_str(s@),
{
    let n = s.unicode_len();
    let mut out: Vec<Command> = Vec::new();
    for i in 0..n
        invariant
            n == s@.len(),
            out@ == decode_str(s@.take(i as int)),
    {
        let ch = s.get_char(i);
        match decode_one(ch) {
            Some(c) => {
                out.push(c);
            },
            None => {},
        }
        proof {
            assert(s@.take(i + 1).drop_last() =~= s@.take(i as int));
            assert(s@.take(i + 1).last() == s@[i as int]);
        }
    }
    proof {
        assert(s@.take(n as int) =~= s@);
    }
    out
}

/// Encode a command sequence as its canonical string.
pub fn commands_to_string(cmds: Vec<Command>) -> (r: String)
    ensures
        r@ == encode_str(cmds@),
{
    let mut r = String::new();
    for i in 0..cmds.len()
        invariant
            r@ == encode_str(cmds@.take(i as int)),
    {
        let lit = match cmds[i] {
            Command::Move(Direction::W) => "p",
            Command::Move(Direction::E) => "b",
            Command::Move(Direction::SW) => "a",
            Command::Move(Direction::SE) => "l",
            Command::Rotate(Clock::Wise) => "d",
            Command::Rotate(Clock::Counter) => "k",
        };
        proof {
            reveal_strlit("p");
            reveal_strlit("b");
            reveal_strlit("a");
            reveal_strlit("l");
            reveal_strlit("d");
            reveal_strlit("k");
        }
        r.append(lit);
        proof {
            assert(encode_str(cmds@.take(i + 1)) =~= encode_str(cmds@.take(i as int)).push(
                encode_char(cmds@[i as int]),
            ));
            assert(r@ =~= encode_str(cmds@.take(i + 1)));
        }
    }
    proof {
        assert(cmds@.take(cmds@.len() as int) =~= cmds@);
    }
    r
}

/// A single command character decodes to exactly one command.
pub proof fn lemma_decode_single(s: Seq<char>)
    requires
        s.len() == 1,
        decode_char(s[0]) is Some,
    ensures
        valid_cmd_str(s),
        decode_str(s) == seq![decode_char(s[0]).unwrap()],
        decode_str(s).len() == 1,
{
    assert(s.drop_last() =~= Seq::<char>::empty());
    assert(s.last() == s[0]);
    assert(decode_str(Seq::<char>::empty()) == Seq::<Command>::empty());
    assert(decode_str(s) == Seq::<Command>::empty().push(decode_char(s[0]).unwrap()));
    assert(decode_str(s) =~= seq![decode_char(s[0]).unwrap()]);
}

/// Decoding distributes over concatenation.
pub proof fn lemma_decode_concat(a: Seq<char>, b: Seq<char>)
    ensures
        decode_str(a + b) == decode_str(a) + decode_str(b),
    decreases b.len(),
{
    if b.len() == 0 {
        assert(a + b =~= a);
        assert(decode_str(a) + decode_str(b) =~= decode_str(a));
    } else {
        lemma_decode_concat(a, b.drop_last());
        assert((a + b).drop_last() =~= a + b.drop_last());
        assert((a + b).last() == b.last());
        match decode_char(b.last()) {
            Some(c) => {
                assert(decode_str(a) + decode_str(b) =~= (decode_str(a) + decode_str(
                    b.drop_last(),
                )).push(c));
            },
            None => {},
        }
    }
}

/// Every character of a valid command string is ASCII.
pub proof fn lemma_valid_ascii(s: Seq<char>)
    requires
        valid_cmd_str(s),
    ensures
        vstd::utf8::is_ascii_chars(s),
{
    assert forall|i: int| 0 <= i < s.len() implies '\0' <= #[trigger] s[i] <= '\u{7f}' by {
        assert(decode_char(s[i]) is Some || is_skipped(s[i]));
    }
}

/// Whether `p` occurs in `s` starting at position `i`.
pub open spec fn occurs_at(s: Seq<char>, p: Seq<char>, i: int) -> bool {
    &&& 0 <= i
    &&& i + p.len() <= s.len()
    &&& s.subrange(i, i + p.len()) == p
}

/// How many positions below `n` an occurrence of `p` starts at.
pub open spec fn occ_below(s: Seq<char>, p: Seq<char>, n: int) -> int
    decreases n,
{
    if n <= 0 {
        0
    } else {
        occ_below(s, p, n - 1) + if occurs_at(s, p, n - 1) {
            1int
        } else {
            0int
        }
    }
}

/// How many times `p` occurs in `s`, overlapping occurrences counted.
pub open spec fn count_occurrences(s: Seq<char>, p: Seq<char>) -> int {
    if 1 <= p.len() <= s.len() {
        occ_below(s, p, s.len() - p.len() + 1)
    } else {
        0
    }
}

/// The bonus a command string earns from the given phrases: per phrase, twice
/// the phrase length for each occurrence, plus a flat reward when the phrase
/// occurs at all.
pub open spec fn pop_score(s: Seq<char>, phrases: Seq<String>) -> int
    decreases phrases.len(),
{
    if phrases.len() == 0 {
        0
    } else {
        let k = count_occurrences(s, phrases.last()@);
        pop_score(s, phrases.drop_last()) + 2 * phrases.last()@.len() * k + if k > 0 {
            300int
        } else {
            0int
        }
    }
}

/// The empty string earns no phrase bonus.
pub proof fn lemma_pop_score_empty(phrases: Seq<String>)
    requires
        forall|i: int| 0 <= i < phrases.len() ==> (#[trigger] phrases[i])@.len() >= 1,
    ensures
        pop_score(Seq::<char>::empty(), phrases) == 0,
    decreases phrases.len(),
{
    if phrases.len() > 0 {
        assert(forall|i: int|
            0 <= i < phrases.drop_last().len() ==> (#[trigger] phrases.drop_last()[i])@.len()
                >= 1);
        lemma_pop_score_empty(phrases.drop_last());
        assert(count_occurrences(Seq::<char>::empty(), phrases.last()@) == 0);
    }
}

/// The phrase bonus depends only on the phrases' characters, not on which
/// string values carry them.
pub proof fn lemma_pop_score_views(s: Seq<char>, a: Seq<String>, b: Seq<String>)
    requires
        a.len() == b.len(),
        forall|i: int| 0 <= i < a.len() ==> (#[trigger] a[i])@ == b[i]@,
    ensures
        pop_score(s, a) == pop_score(s, b),
    decreases a.len(),
{
    if a.len() > 0 {
        assert(forall|i: int|
            0 <= i < a.drop_last().len() ==> (#[trigger] a.drop_last()[i])@ == b.drop_last()[i]@);
        lemma_pop_score_views(s, a.drop_last(), b.drop_last());
        assert(a.last()@ == b.last()@);
    }
}

/// Whether `p` occurs in `s` at position `i`.
fn match_at(s: &str, n: usize, p: &str, plen: usize, i: usize) -> (b: bool)
    requires
        n == s@.len(),
        plen == p@.len(),
        i + plen <= n,
    ensures
        b == occurs_at(s@, p@, i as int),
{
    for j in 0..plen
        invariant
            forall|jj: int| 0 <= jj < j ==> s@[i + jj] == p@[jj],
    {
        if s.get_char(i + j) != p.get_char(j) {
            assert(s@.subrange(i as int, i + plen) != p@) by {
                assert(s@.subrange(i as int, i + plen)[j as int] != p@[j as int]);
            }
            return false;
        }
    }
    proof {
        assert(s@.subrange(i as int, i + plen) =~= p@);
    }
    true
}

/// The bonus the given phrases earn over a command string: each occurrence of
/// a phrase is worth twice its length, and any occurrence at all earns a flat
/// reward on top.
#[verifier::rlimit(50)]
pub fn score_pop(s: &str, phrases: &Vec<String>) -> (r: i64)
    requires
        s@.len() <= 1_000_000_000,
        phrases@.len() <= crate::options::PHRASES_MAX,
        forall|i: int|
            0 <= i < phrases@.len() ==> crate::options::phrase_ok(#[trigger] phrases@[i]@),
    ensures
        r as int == pop_score(s@, phrases@),
        0 <= r <= 0x100_000_000_000,
{
    let n = s.unicode_len();
    let mut total: i64 = 0;
    let np = phrases.len();
    for pi in 0..np
        invariant
            n == s@.len(),
            np == phrases@.len(),
            total as int == pop_score(s@, phrases@.take(pi as int)),
            0 <= total <= pi * 0x4000_000_000,
    {
        proof {
            assert(crate::options::phrase_ok(phrases@[pi as int]@));
        }
        let p = &phrases[pi];
        let plen = p.as_str().unicode_len();
        let mut k: i64 = 0;
        if 1 <= plen && plen <= n {
            let last_start = n - plen + 1;
            for i in 0..last_start
                invariant
                    n == s@.len(),
                    plen == p@.len(),
                    1 <= plen <= n,
                    last_start == n - plen + 1,
                    k as int == occ_below(s@, p@, i as int),
                    0 <= k <= i,
            {
                if match_at(s, n, p.as_str(), plen, i) {
                    k = k + 1;
                }
            }
        }
        proof {
            assert(k as int == count_occurrences(s@, p@));
            assert(0 <= k <= 1_000_000_000);
            assert(plen <= crate::options::PHRASE_LEN_MAX);
            assert(2 * (plen as int) * (k as int) <= 200_000_000_000int) by (nonlinear_arith)
                requires
                    0 <= k as int <= 1_000_000_000,
                    0 <= plen as int <= 100,
            ;
            assert(0 <= 2 * (plen as int) * (k as int)) by (nonlinear_arith)
                requires
                    0 <= k as int,
                    0 <= plen as int,
            ;
        }
        let bonus: i64 = if k > 0 {
            2 * (plen as i64) * k + 300
        } else {
            0
        };
        total = total + bonus;
        proof {
            assert(phrases@.take(pi + 1).drop_last() =~= phrases@.take(pi as int));
            assert(phrases@.take(pi + 1).last() == phrases@[pi as int]);
            assert(pop_score(s@, phrases@.take(pi + 1)) == pop_score(s@, phrases@.take(pi as int))
                + 2 * phrases@[pi as int]@.len() * (k as int) + if k as int > 0 {
                300int
            } else {
                0int
            });
            assert(2 * (phrases@[pi as int]@.len() as int) * (k as int) == 2 * (plen as int) * (
            k as int));
            assert(bonus as int == 2 * (plen as int) * (k as int) + if k as int > 0 {
                300int
            } else {
                0int
            });
            assert(total as int == pop_score(s@, phrases@.take(pi + 1)));
        }
    }
    proof {
        assert(phrases@.take(np as int) =~= phrases@);
        assert(total <= 64 * 0x4000_000_000);
    }
    total
}

/// Decoding inverts encoding: the canonical string of any command sequence is
/// a valid command string, and decoding it yields the sequence back.
pub proof fn lemma_decode_encode(cs: Seq<Command>)
    ensures
        valid_cmd_str(encode_str(cs)),
        decode_str(encode_str(cs)) == cs,
    decreases cs.len(),
{
    let e = encode_str(cs);
    if cs.len() == 0 {
        assert(decode_str(e) =~= cs);
    } else {
        lemma_decode_encode(cs.drop_last());
        assert(encode_str(cs.drop_last()) =~= e.drop_last());
        assert(e.last() == encode_char(cs.last()));
        assert(decode_char(encode_char(cs.last())) == Some(cs.last()));
        assert(decode_str(e) =~= cs);
    }
}

} // verus!

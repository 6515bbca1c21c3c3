//! Text produced by the mirror: decimal numbers, the provenance header of an
//! applied block, the block itself, and the lossy decoding of tailed bytes.

use vstd::prelude::*;
use vstd::string::*;

verus! {

/// The character of a decimal digit `d` (`d < 10`).
pub open spec fn digit_char(d: nat) -> char {
    if d == 0 {
        '0'
    } else if d == 1 {
        '1'
    } else if d == 2 {
        '2'
    } else if d == 3 {
        '3'
    } else if d == 4 {
        '4'
    } else if d == 5 {
        '5'
    } else if d == 6 {
        '6'
    } else if d == 7 {
        '7'
    } else if d == 8 {
        '8'
    } else {
        '9'
    }
}

/// The decimal representation of `n`, without sign or leading zeros
/// (the way `{}` formats an unsigned integer).
pub open spec fn decimal(n: nat) -> Seq<char>
    decreases n,
{
    if n < 10 {
        seq![digit_char(n)]
    } else {
        decimal(n / 10).push(digit_char(n % 10))
    }
}

/// `"## "`: what opens a provenance header.
pub open spec fn header_open() -> Seq<char> {
    seq!['#', '#', ' ']
}

/// Two spaces: what separates the timestamp from the node name.
pub open spec fn header_gap() -> Seq<char> {
    seq![' ', ' ']
}

/// `"  (via tether)\n"`: what closes a provenance header.
pub open spec fn header_close() -> Seq<char> {
    seq![' ', ' ', '(', 'v', 'i', 'a', ' ', 't', 'e', 't', 'h', 'e', 'r', ')', '\n']
}

/// The provenance header of a block applied from node `node` with timestamp `ts`:
/// `"## <ts>  <node>  (via tether)\n"`.
pub open spec fn provenance_text(ts: u64, node: Seq<char>) -> Seq<char> {
    header_open() + decimal(ts as nat) + header_gap() + node + header_close()
}

/// Whether `s` ends with a line feed.
pub open spec fn ends_with_newline(s: Seq<char>) -> bool {
    s.len() > 0 && s.last() == '\n'
}

/// What is appended to the local gossip file for a remote block: the provenance
/// header, the body, and a line feed when the body does not end with one.
pub open spec fn applied_block(ts: u64, node: Seq<char>, body: Seq<char>) -> Seq<char> {
    provenance_text(ts, node) + body + (if ends_with_newline(body) {
        Seq::<char>::empty()
    } else {
        seq!['\n']
    })
}

/// The text that `String::from_utf8_lossy` makes of `bytes`: valid UTF-8 sequences
/// decoded, each invalid one replaced by U+FFFD.
pub uninterp spec fn lossy_utf8(bytes: Seq<u8>) -> Seq<char>;

/// Decodes `bytes` as UTF-8 with `String::from_utf8_lossy` and takes the text as an
/// owned `String`. The contract claims that the text is a function of the bytes
/// alone (named `lossy_utf8`), and, as the std documentation says, that valid
/// UTF-8 is decoded unchanged.
#[verifier::external_body]
pub(crate) fn text_from_bytes_lossy(bytes: &[u8]) -> (text: String)
    ensures
        text@ == lossy_utf8(bytes@),
        vstd::utf8::valid_utf8(bytes@) ==> text@ == vstd::utf8::decode_utf8(bytes@),
{
    String::from_utf8_lossy(bytes).into_owned()
}

/// The one-character string of decimal digit `d`.
fn digit_str(d: u64) -> (s: &'static str)
    requires
        d < 10,
    ensures
        s@ == seq![digit_char(d as nat)],
{
    if d == 0 {
        proof { reveal_strlit("0"); }
        "0"
    } else if d == 1 {
        proof { reveal_strlit("1"); }
        "1"
    } else if d == 2 {
        proof { reveal_strlit("2"); }
        "2"
    } else if d == 3 {
        proof { reveal_strlit("3"); }
        "3"
    } else if d == 4 {
        proof { reveal_strlit("4"); }
        "4"
    } else if d == 5 {
        proof { reveal_strlit("5"); }
        "5"
    } else if d == 6 {
        proof { reveal_strlit("6"); }
        "6"
    } else if d == 7 {
        proof { reveal_strlit("7"); }
        "7"
    } else if d == 8 {
        proof { reveal_strlit("8"); }
        "8"
    } else {
        proof { reveal_strlit("9"); }
        "9"
    }
}

/// Appends the decimal representation of `n` to `s`.
pub(crate) fn append_decimal(s: &mut String, n: u64)
    ensures
        final(s)@ == old(s)@ + decimal(n as nat),
    decreases n,
{
    if n >= 10 {
        append_decimal(s, n / 10);
    }
    let d = digit_str(n % 10);
    s.append(d);
    proof {
        if n >= 10 {
            assert(decimal(n as nat) == decimal((n / 10) as nat).push(digit_char((n % 10) as nat)));
        }
        assert(final(s)@ =~= old(s)@ + decimal(n as nat));
    }
}

/// Builds the provenance header for an applied remote block:
/// `"## <ts>  <node>  (via tether)\n"`.
pub fn provenance_header(ts: u64, node: &str) -> (header: String)
    ensures
        header@ == provenance_text(ts, node@),
{
    proof {
        reveal_strlit("## ");
        reveal_strlit("  ");
        reveal_strlit("  (via tether)\n");
        assert("## "@ =~= header_open());
        assert("  "@ =~= header_gap());
        assert("  (via tether)\n"@ =~= header_close());
    }
    let mut header = String::from_str("## ");
    append_decimal(&mut header, ts);
    header.append("  ");
    header.append(node);
    header.append("  (via tether)\n");
    proof {
        assert(header@ =~= provenance_text(ts, node@));
    }
    header
}

/// Whether `s` ends with a line feed.
pub fn text_ends_with_newline(s: &str) -> (r: bool)
    ensures
        r == ends_with_newline(s@),
{
    let n = s.unicode_len();
    if n == 0 {
        false
    } else {
        s.get_char(n - 1) == '\n'
    }
}

/// The block to append to the local gossip file for a remote block from `node`
/// with timestamp `ts` and text `body`: the provenance header, then the body,
/// then a line feed when the body does not already end with one.
pub fn block_for_remote(ts: u64, node: &str, body: &str) -> (block: String)
    ensures
        block@ == applied_block(ts, node@, body@),
{
    let mut block = provenance_header(ts, node);
    block.append(body);
    if !text_ends_with_newline(body) {
        proof {
            reveal_strlit("\n");
        }
        block.append("\n");
    }
    proof {
        assert(block@ =~= applied_block(ts, node@, body@));
    }
    block
}

} // verus!

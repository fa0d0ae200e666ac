//! What a command line says of the text to shape, and how text is shown.

use vstd::prelude::*;

use crate::numbers::{
    digit_value, digits, lemma_digits, lemma_digits_value, lemma_leading_zeros, number, parse_number,
    push_number, unsigned, value,
};

verus! {

/// Whether a character is white space.
pub open spec fn white(c: char) -> bool {
    let v = c as u32;
    9 <= v <= 13 || v == 0x20 || v == 0x85 || v == 0xA0 || v == 0x1680 || 0x2000 <= v <= 0x200A || v == 0x2028
        || v == 0x2029 || v == 0x202F || v == 0x205F || v == 0x3000
}

fn is_white(c: char) -> (r: bool)
    ensures
        r == white(c),
{
    let v: u32 = c as u32;
    (9 <= v && v <= 13) || v == 0x20 || v == 0x85 || v == 0xA0 || v == 0x1680 || (0x2000 <= v && v
        <= 0x200A) || v == 0x2028 || v == 0x2029 || v == 0x202F || v == 0x205F || v == 0x3000
}

/// Whether a number is that of a character.
pub open spec fn is_scalar(v: u32) -> bool {
    v <= 0x10FFFF && !(0xD800 <= v <= 0xDFFF)
}

/// `char::from_u32`: the character of a number, if it is that of one.
#[verifier::external_body]
fn to_char(v: u32) -> (r: Option<char>)
    ensures
        r is Some <==> is_scalar(v),
        r matches Some(c) ==> c as u32 == v,
{
    char::from_u32(v)
}

/// What text is split at.
#[derive(Copy, Clone, Debug, PartialEq, Eq, Structural)]
pub enum Separator {
    /// The characters between codepoints.
    Codepoints,
    Newline,
    Space,
}

/// Whether a character separates.
pub open spec fn separates(sep: Separator, c: char) -> bool {
    match sep {
        Separator::Codepoints => c == ',' || c == ' ' || c == ';' || c == '\t',
        Separator::Newline => c == '\n',
        Separator::Space => c == ' ',
    }
}

/// The fields between separators, empty ones too.
pub open spec fn fields(s: Seq<char>, sep: Separator) -> Seq<Seq<char>>
    decreases s.len(),
{
    if s.len() == 0 {
        seq![seq![]]
    } else {
        let before = fields(s.drop_last(), sep);
        if separates(sep, s.last()) {
            before.push(seq![])
        } else {
            before.update(before.len() - 1, before.last().push(s.last()))
        }
    }
}

proof fn lemma_fields_nonempty(s: Seq<char>, sep: Separator)
    ensures
        fields(s, sep).len() >= 1,
    decreases s.len(),
{
    if s.len() > 0 {
        lemma_fields_nonempty(s.drop_last(), sep);
    }
}

/// Lists of text by their views.
pub open spec fn texts(v: Seq<Vec<char>>) -> Seq<Seq<char>> {
    Seq::new(v.len(), |i: int| v[i]@)
}

/// The fields between separators.
pub fn split(s: &[char], sep: Separator) -> (out: Vec<Vec<char>>)
    ensures
        texts(out@) == fields(s@, sep),
{
    let mut out: Vec<Vec<char>> = Vec::new();
    out.push(Vec::new());
    let mut i: usize = 0;
    assert(texts(out@) =~= fields(s@.take(0), sep)) by {
        assert(out@[0]@ =~= seq![]);
    }
    while i < s.len()
        invariant
            i <= s@.len(),
            out@.len() >= 1,
            texts(out@) == fields(s@.take(i as int), sep),
        decreases s@.len() - i,
    {
        let c: char = s[i];
        let ghost before = out@;
        assert(s@.take(i + 1).drop_last() =~= s@.take(i as int));
        let apart: bool = match sep {
            Separator::Codepoints => c == ',' || c == ' ' || c == ';' || c == '\t',
            Separator::Newline => c == '\n',
            Separator::Space => c == ' ',
        };
        if apart {
            out.push(Vec::new());
            proof {
                let now = texts(out@);
                let then = texts(before);
                assert forall|k: int| 0 <= k < now.len() implies now[k] == then.push(seq![])[k] by {
                    if k == then.len() {
                        assert(out@[k]@ =~= seq![]);
                    }
                }
                assert(now =~= then.push(seq![]));
            }
        } else {
            let last: usize = out.len() - 1;
            out[last].push(c);
            proof {
                let then = texts(before);
                assert(texts(out@) =~= then.update(then.len() - 1, then.last().push(c)));
            }
        }
        i += 1;
    }
    assert(s@.take(i as int) =~= s@);
    out
}

/// The texts that are not empty.
pub open spec fn filled(s: Seq<Seq<char>>) -> Seq<Seq<char>>
    decreases s.len(),
{
    if s.len() == 0 {
        seq![]
    } else if s.last().len() == 0 {
        filled(s.drop_last())
    } else {
        filled(s.drop_last()).push(s.last())
    }
}

fn keep_filled(v: Vec<Vec<char>>) -> (out: Vec<Vec<char>>)
    ensures
        texts(out@) == filled(texts(v@)),
{
    let mut out: Vec<Vec<char>> = Vec::new();
    let mut v = v;
    let ghost all = texts(v@);
    let mut i: usize = 0;
    assert(texts(out@) =~= filled(all.take(0)));
    while i < v.len()
        invariant
            i <= v@.len(),
            v@.len() == all.len(),
            forall|k: int| i <= k < v@.len() ==> (#[trigger] v@[k])@ == all[k],
            texts(out@) == filled(all.take(i as int)),
        decreases v@.len() - i,
    {
        assert(all.take(i + 1).drop_last() =~= all.take(i as int));
        let ghost before = out@;
        if v[i].len() > 0 {
            let mut taken: Vec<char> = Vec::new();
            core::mem::swap(&mut taken, &mut v[i]);
            out.push(taken);
            assert(texts(out@) =~= texts(before).push(all[i as int]));
        }
        i += 1;
    }
    assert(all.take(i as int) =~= all);
    out
}

/// The lines of text to shape, without empty ones; all of it, where it is one
/// paragraph.
pub fn lines(text: &[char], single_par: bool) -> (out: Vec<Vec<char>>)
    ensures
        texts(out@) == (if single_par {
            seq![text@]
        } else {
            filled(fields(text@, Separator::Newline))
        }),
{
    if single_par {
        let mut whole: Vec<char> = Vec::new();
        let mut i: usize = 0;
        while i < text.len()
            invariant
                i <= text@.len(),
                whole@ == text@.take(i as int),
            decreases text@.len() - i,
        {
            whole.push(text[i]);
            assert(whole@ =~= text@.take(i + 1));
            i += 1;
        }
        assert(whole@ =~= text@);
        let mut out: Vec<Vec<char>> = Vec::new();
        out.push(whole);
        assert(texts(out@) =~= seq![text@]);
        out
    } else {
        keep_filled(split(text, Separator::Newline))
    }
}

/// The options in a line of them.
pub fn options(s: &[char]) -> (out: Vec<Vec<char>>)
    ensures
        texts(out@) == filled(fields(s@, Separator::Space)),
{
    keep_filled(split(s, Separator::Space))
}

/// Text without white space at its start.
pub open spec fn trim_start(s: Seq<char>) -> Seq<char>
    decreases s.len(),
{
    if s.len() > 0 && white(s[0]) {
        trim_start(s.skip(1))
    } else {
        s
    }
}

/// Text without white space at its end.
pub open spec fn trim_end(s: Seq<char>) -> Seq<char>
    decreases s.len(),
{
    if s.len() > 0 && white(s.last()) {
        trim_end(s.drop_last())
    } else {
        s
    }
}

/// Text without white space around it.
pub open spec fn trimmed(s: Seq<char>) -> Seq<char> {
    trim_end(trim_start(s))
}

/// Where trimmed text starts and ends.
fn trim(s: &Vec<char>) -> (r: (usize, usize))
    ensures
        r.0 <= r.1 <= s@.len(),
        trimmed(s@) == s@.subrange(r.0 as int, r.1 as int),
{
    let mut from: usize = 0;
    assert(s@.skip(0) =~= s@);
    while from < s.len() && is_white(s[from])
        invariant
            from <= s@.len(),
            trim_start(s@) == trim_start(s@.skip(from as int)),
        decreases s@.len() - from,
    {
        assert(s@.skip(from as int)[0] == s@[from as int]);
        assert(s@.skip(from as int).skip(1) =~= s@.skip(from + 1));
        from += 1;
    }
    proof {
        if from < s@.len() {
            assert(s@.skip(from as int)[0] == s@[from as int]);
        }
        assert(trim_start(s@) == s@.skip(from as int));
    }
    let mut to: usize = s.len();
    assert(s@.subrange(from as int, to as int) =~= s@.skip(from as int));
    while to > from && is_white(s[to - 1])
        invariant
            from <= to <= s@.len(),
            trimmed(s@) == trim_end(s@.subrange(from as int, to as int)),
        decreases to - from,
    {
        let ghost now = s@.subrange(from as int, to as int);
        assert(now.last() == s@[to - 1]);
        assert(now.drop_last() =~= s@.subrange(from as int, to - 1));
        to -= 1;
    }
    proof {
        let now = s@.subrange(from as int, to as int);
        if to > from {
            assert(now.last() == s@[to - 1]);
        }
    }
    (from, to)
}

/// Whether text starts with what marks a codepoint.
pub open spec fn is_marked(s: Seq<char>) -> bool {
    s.len() >= 2 && ((s[0] == 'U' && s[1] == '+') || (s[0] == 'u' && s[1] == '+') || (s[0] == '0' && s[1]
        == 'x') || (s[0] == '0' && s[1] == 'X'))
}

/// The hexadecimal digits of a codepoint.
pub open spec fn unmarked(s: Seq<char>) -> Seq<char> {
    if is_marked(s) {
        s.skip(2)
    } else {
        s
    }
}

/// What a field stands for: nothing where it is empty, else a character.
#[derive(Copy, Clone, Debug, PartialEq, Eq, Structural)]
pub enum Token {
    Blank,
    Character(u32),
    Invalid,
}

/// What a field stands for.
pub open spec fn token(s: Seq<char>) -> Token {
    let t = trimmed(s);
    if t.len() == 0 {
        Token::Blank
    } else {
        match number(unmarked(t), 16) {
            Some(v) => if is_scalar(v) {
                Token::Character(v)
            } else {
                Token::Invalid
            },
            None => Token::Invalid,
        }
    }
}

fn read_token(s: &Vec<char>) -> (r: Token)
    ensures
        r == token(s@),
{
    let (from, to) = trim(s);
    let ghost t = trimmed(s@);
    if from == to {
        return Token::Blank;
    }
    let start: usize = if to - from >= 2 && ((s[from] == 'U' && s[from + 1] == '+') || (s[from] == 'u' && s[from
        + 1] == '+') || (s[from] == '0' && s[from + 1] == 'x') || (s[from] == '0' && s[from + 1] == 'X')) {
        from + 2
    } else {
        from
    };
    let hex = vstd::slice::slice_subrange(s.as_slice(), start, to);
    assert(hex@ =~= unmarked(t));
    match parse_number(hex, 16) {
        Some(v) => {
            if to_char(v).is_some() {
                Token::Character(v)
            } else {
                Token::Invalid
            }
        },
        None => Token::Invalid,
    }
}

/// The characters that the first `n` fields stand for, up to the first that
/// stands for none: that one's position, where there is one.
pub open spec fn characters(fields: Seq<Seq<char>>, n: nat) -> Result<Seq<u32>, int>
    decreases n,
{
    if n == 0 {
        Ok(seq![])
    } else {
        match characters(fields, (n - 1) as nat) {
            Err(i) => Err(i),
            Ok(cs) => match token(fields[n - 1]) {
                Token::Blank => Ok(cs),
                Token::Character(c) => Ok(cs.push(c)),
                Token::Invalid => Err(n - 1),
            },
        }
    }
}

/// Characters by their numbers.
pub open spec fn codes(s: Seq<char>) -> Seq<u32> {
    Seq::new(s.len(), |i: int| s[i] as u32)
}

/// One bad field spoils the rest.
proof fn lemma_spoilt(fields: Seq<Seq<char>>, n: nat, m: nat)
    requires
        n <= m,
        characters(fields, n) is Err,
    ensures
        characters(fields, m) == characters(fields, n),
    decreases m,
{
    if n < m {
        lemma_spoilt(fields, n, (m - 1) as nat);
    }
}

/// The text that a list of codepoints stands for, or the first field that is
/// not one.
pub fn parse_unicodes(s: &[char]) -> (r: Result<Vec<char>, Vec<char>>)
    ensures
        ({
            let all = fields(s@, Separator::Codepoints);
            match r {
                Ok(text) => characters(all, all.len()) == Ok::<Seq<u32>, int>(codes(text@)),
                Err(bad) => exists|i: int|
                    0 <= i < all.len() && characters(all, all.len()) == Err::<Seq<u32>, int>(i) && bad@
                        == trimmed(#[trigger] all[i]),
            }
        }),
{
    let parts = split(s, Separator::Codepoints);
    let ghost all = fields(s@, Separator::Codepoints);
    let mut text: Vec<char> = Vec::new();
    let mut i: usize = 0;
    assert(codes(text@) =~= seq![]);
    while i < parts.len()
        invariant
            i <= parts@.len(),
            texts(parts@) == all,
            all == fields(s@, Separator::Codepoints),
            characters(all, i as nat) == Ok::<Seq<u32>, int>(codes(text@)),
        decreases parts@.len() - i,
    {
        assert(all[i as int] == parts@[i as int]@);
        match read_token(&parts[i]) {
            Token::Blank => {},
            Token::Character(v) => {
                let c: char = to_char(v).unwrap();
                let ghost before = text@;
                text.push(c);
                assert(codes(text@) =~= codes(before).push(v));
            },
            Token::Invalid => {
                let (from, to) = trim(&parts[i]);
                let mut bad: Vec<char> = Vec::new();
                let mut k: usize = from;
                while k < to
                    invariant
                        from <= k <= to <= parts@[i as int]@.len(),
                        i < parts@.len(),
                        bad@ == parts@[i as int]@.subrange(from as int, k as int),
                    decreases to - k,
                {
                    bad.push(parts[i][k]);
                    assert(bad@ =~= parts@[i as int]@.subrange(from as int, k + 1));
                    k += 1;
                }
                proof {
                    lemma_spoilt(all, (i + 1) as nat, all.len());
                    assert(bad@ == trimmed(all[i as int]));
                }
                return Err(bad);
            },
        }
        i += 1;
    }
    Ok(text)
}

/// How clusters are merged.
#[derive(Copy, Clone, Debug, PartialEq, Eq, Structural)]
pub enum BufferClusterLevel {
    MonotoneGraphemes,
    MonotoneCharacters,
    Characters,
    Graphemes,
}

/// The level that a digit names.
pub fn parse_cluster(s: &[char]) -> (r: Option<BufferClusterLevel>)
    ensures
        r == (if s@ == seq!['0'] {
            Some(BufferClusterLevel::MonotoneGraphemes)
        } else if s@ == seq!['1'] {
            Some(BufferClusterLevel::MonotoneCharacters)
        } else if s@ == seq!['2'] {
            Some(BufferClusterLevel::Characters)
        } else if s@ == seq!['3'] {
            Some(BufferClusterLevel::Graphemes)
        } else {
            None
        }),
{
    if s.len() != 1 {
        return None;
    }
    let c: char = s[0];
    assert(s@ =~= seq![c]);
    assert(seq!['0'][0] == '0' && seq!['1'][0] == '1' && seq!['2'][0] == '2' && seq!['3'][0] == '3');
    if c == '0' {
        Some(BufferClusterLevel::MonotoneGraphemes)
    } else if c == '1' {
        Some(BufferClusterLevel::MonotoneCharacters)
    } else if c == '2' {
        Some(BufferClusterLevel::Characters)
    } else if c == '3' {
        Some(BufferClusterLevel::Graphemes)
    } else {
        None
    }
}

/// A number in hexadecimal, of four digits at least.
pub open spec fn hex4(v: int) -> Seq<char> {
    let d = digits(v, 16);
    if d.len() < 4 {
        Seq::new((4 - d.len()) as nat, |i: int| '0') + d
    } else {
        d
    }
}

/// A character as a codepoint.
pub open spec fn code(v: u32) -> Seq<char> {
    seq!['U', '+'] + hex4(v as int)
}

fn push_code(out: &mut Vec<char>, c: char)
    ensures
        final(out)@ == old(out)@ + code(c as u32),
{
    let ghost before = out@;
    let v: u32 = c as u32;
    out.push('U');
    out.push('+');
    let mut d: Vec<char> = Vec::new();
    push_number(&mut d, v as u64, 16);
    assert(d@ =~= digits(v as int, 16));
    let mut i: usize = d.len();
    let ghost n = d@.len();
    assert(out@ =~= before + seq!['U', '+'] + Seq::new(0, |i: int| '0'));
    while i < 4
        invariant
            n <= i,
            i <= 4 || i == n,
            out@ == before + seq!['U', '+'] + Seq::new((i - n) as nat, |i: int| '0'),
        decreases 4 - i,
    {
        out.push('0');
        assert(out@ =~= before + seq!['U', '+'] + Seq::new((i + 1 - n) as nat, |i: int| '0'));
        i += 1;
    }
    out.append(&mut d);
    assert(out@ =~= before + code(v));
}

/// Characters as a list of codepoints.
pub open spec fn joined(s: Seq<char>) -> Seq<char>
    decreases s.len(),
{
    if s.len() == 0 {
        seq![]
    } else if s.len() == 1 {
        code(s[0] as u32)
    } else {
        joined(s.drop_last()).push(',') + code(s.last() as u32)
    }
}

/// Text as a list of codepoints, so that any character can be passed as an
/// option.
pub fn join_unicodes(text: &[char]) -> (out: Vec<char>)
    ensures
        out@ == joined(text@),
{
    let mut out: Vec<char> = Vec::new();
    let mut i: usize = 0;
    assert(out@ =~= joined(text@.take(0)));
    while i < text.len()
        invariant
            i <= text@.len(),
            out@ == joined(text@.take(i as int)),
        decreases text@.len() - i,
    {
        let ghost before = out@;
        assert(text@.take(i + 1).drop_last() =~= text@.take(i as int));
        if i > 0 {
            out.push(',');
        }
        push_code(&mut out, text[i]);
        proof {
            if i == 0 {
                assert(before =~= seq![]);
                assert(out@ =~= code(text@[0] as u32));
            }
        }
        i += 1;
    }
    assert(text@.take(i as int) =~= text@);
    out
}

/// How many bytes a character takes in UTF-8.
pub open spec fn utf8_len(c: char) -> nat {
    let v = c as u32;
    if v < 0x80 {
        1
    } else if v < 0x800 {
        2
    } else if v < 0x1_0000 {
        3
    } else {
        4
    }
}

/// How many bytes characters take in UTF-8.
pub open spec fn utf8_bytes(s: Seq<char>) -> nat
    decreases s.len(),
{
    if s.len() == 0 {
        0
    } else {
        utf8_bytes(s.drop_last()) + utf8_len(s.last())
    }
}

/// Characters with the positions they have, as characters or as bytes.
pub open spec fn positioned(s: Seq<char>, utf8_clusters: bool, n: nat) -> Seq<char>
    decreases n,
{
    if n == 0 {
        seq![]
    } else {
        let at = if utf8_clusters {
            utf8_bytes(s.take(n - 1)) as int
        } else {
            n - 1
        };
        positioned(s, utf8_clusters, (n - 1) as nat).push(
            if n == 1 {
                '<'
            } else {
                '|'
            },
        ) + code(s[n - 1] as u32).push('=') + digits(at, 10)
    }
}

/// Text as codepoints with their positions; nothing for none.
pub open spec fn shown(s: Seq<char>, utf8_clusters: bool) -> Seq<char> {
    if s.len() == 0 {
        seq![]
    } else {
        positioned(s, utf8_clusters, s.len()).push('>')
    }
}

/// Text as codepoints with their positions.
pub fn serialize_unicode(text: &[char], utf8_clusters: bool) -> (out: Vec<char>)
    requires
        text@.len() <= 0x1000_0000_0000_0000,
    ensures
        out@ == shown(text@, utf8_clusters),
{
    let mut out: Vec<char> = Vec::new();
    let mut offset: u64 = 0;
    let mut i: usize = 0;
    assert(out@ =~= seq![]);
    while i < text.len()
        invariant
            i <= text@.len() <= 0x1000_0000_0000_0000,
            offset == utf8_bytes(text@.take(i as int)),
            offset <= 4 * i,
            out@ == positioned(text@, utf8_clusters, i as nat),
        decreases text@.len() - i,
    {
        let c: char = text[i];
        let ghost before = out@;
        out.push(
            if i == 0 {
                '<'
            } else {
                '|'
            },
        );
        push_code(&mut out, c);
        out.push('=');
        let at: u64 = if utf8_clusters {
            offset
        } else {
            i as u64
        };
        push_number(&mut out, at, 10);
        assert(out@ =~= positioned(text@, utf8_clusters, (i + 1) as nat));
        assert(text@.take(i + 1).drop_last() =~= text@.take(i as int));
        let v: u32 = c as u32;
        offset = offset + if v < 0x80 {
            1
        } else if v < 0x800 {
            2
        } else if v < 0x1_0000 {
            3
        } else {
            4
        };
        i += 1;
    }
    if text.len() > 0 {
        out.push('>');
    }
    assert(text.len() == 0 ==> out@ =~= seq![]);
    out
}

/// Whether text is made of what codepoints are made of.
pub open spec fn plain(s: Seq<char>) -> bool {
    forall|i: int| 0 <= i < s.len() ==> (digit_value(#[trigger] s[i]) is Some || s[i] == 'U' || s[i] == '+')
}

/// Hexadecimal of four digits or more is digits, and comes to the number.
proof fn lemma_hex4(v: u32)
    ensures
        hex4(v as int).len() >= 4,
        forall|i: int| 0 <= i < hex4(v as int).len() ==> digit_value(#[trigger] hex4(v as int)[i]) is Some,
        value(hex4(v as int), 16) == Some(v as int),
{
    let d = digits(v as int, 16);
    lemma_digits_value(v as int, 16);
    assert forall|i: int| 0 <= i < hex4(v as int).len() implies digit_value(
        #[trigger] hex4(v as int)[i],
    ) is Some by {
        if d.len() < 4 {
            let zeros = 4 - d.len();
            if i < zeros {
                assert(hex4(v as int)[i] == '0');
            } else {
                lemma_digits(v as int, 16, i - zeros);
                assert(hex4(v as int)[i] == d[i - zeros]);
            }
        } else {
            lemma_digits(v as int, 16, i);
        }
    }
    if d.len() < 4 {
        lemma_leading_zeros((4 - d.len()) as nat, d, 16);
    }
}

/// A codepoint as text stands for its character.
proof fn lemma_code(c: char, v: u32)
    requires
        c as u32 == v,
    ensures
        plain(code(v)),
        token(code(v)) == Token::Character(v),
{
    let s = code(v);
    let h = hex4(v as int);
    lemma_hex4(v);
    assert forall|i: int| 0 <= i < s.len() implies (digit_value(#[trigger] s[i]) is Some || s[i] == 'U'
        || s[i] == '+') by {
        if i >= 2 {
            assert(s[i] == h[i - 2]);
        }
    }
    assert(s[0] == 'U' && s[1] == '+');
    assert(s.last() == h[h.len() - 1]);
    assert(digit_value(h[h.len() - 1]) is Some);
    assert(trim_start(s) == s);
    assert(trimmed(s) == s);
    assert(s.skip(2) =~= h);
    assert(digit_value(h[0]) is Some);
    assert(unsigned(h) == h);
}

/// Text without separators is added to the last field.
proof fn lemma_fields_add(a: Seq<char>, b: Seq<char>, sep: Separator)
    requires
        forall|i: int| 0 <= i < b.len() ==> !separates(sep, #[trigger] b[i]),
    ensures
        fields(a + b, sep) == fields(a, sep).update(fields(a, sep).len() - 1, fields(a, sep).last() + b),
    decreases b.len(),
{
    lemma_fields_nonempty(a, sep);
    let f = fields(a, sep);
    if b.len() == 0 {
        assert(a + b =~= a);
        assert(f.last() + b =~= f.last());
        assert(f.update(f.len() - 1, f.last() + b) =~= f);
    } else {
        let less = b.drop_last();
        assert forall|i: int| 0 <= i < less.len() implies !separates(sep, #[trigger] less[i]) by {
            assert(less[i] == b[i]);
        }
        lemma_fields_add(a, less, sep);
        assert((a + b).drop_last() =~= a + less);
        let g = fields(a + less, sep);
        assert(g.last() == f.last() + less);
        assert((f.last() + less).push(b.last()) =~= f.last() + b);
        assert(!separates(sep, b[b.len() - 1]));
        assert(fields(a + b, sep) =~= f.update(f.len() - 1, f.last() + b));
    }
}

/// The fields of a list of codepoints are the codepoints.
proof fn lemma_joined_fields(s: Seq<char>)
    requires
        s.len() >= 1,
    ensures
        fields(joined(s), Separator::Codepoints) == Seq::new(s.len(), |i: int| code(s[i] as u32)),
    decreases s.len(),
{
    let sep = Separator::Codepoints;
    let last = code(s.last() as u32);
    lemma_code(s.last(), s.last() as u32);
    assert forall|i: int| 0 <= i < last.len() implies !separates(sep, #[trigger] last[i]) by {
        assert(digit_value(last[i]) is Some || last[i] == 'U' || last[i] == '+');
    }
    if s.len() == 1 {
        let none = Seq::<char>::empty();
        lemma_fields_add(none, last, sep);
        assert(none + last =~= last);
        assert(fields(none, sep) == seq![none]);
        assert(fields(none, sep).last() + last =~= last);
        assert(fields(joined(s), sep) =~= Seq::new(s.len(), |i: int| code(s[i] as u32)));
    } else {
        let less = s.drop_last();
        lemma_joined_fields(less);
        let before = joined(less).push(',');
        assert(before.drop_last() =~= joined(less));
        assert(fields(before, sep) == fields(joined(less), sep).push(seq![]));
        lemma_fields_add(before, last, sep);
        assert(fields(before, sep).last() + last =~= last);
        assert(fields(joined(s), sep) =~= Seq::new(s.len(), |i: int| code(s[i] as u32)));
    }
}

proof fn lemma_codes_read_back(s: Seq<char>, all: Seq<Seq<char>>, n: nat)
    requires
        n <= s.len(),
        all == Seq::new(s.len(), |i: int| code(s[i] as u32)),
    ensures
        characters(all, n) == Ok::<Seq<u32>, int>(codes(s.take(n as int))),
    decreases n,
{
    if n == 0 {
        assert(codes(s.take(0)) =~= seq![]);
    } else {
        lemma_codes_read_back(s, all, (n - 1) as nat);
        lemma_code(s[n - 1], s[n - 1] as u32);
        assert(codes(s.take(n as int)) =~= codes(s.take(n - 1)).push(s[n - 1] as u32));
    }
}

/// Text that was written as a list of codepoints reads back.
pub proof fn written_codepoints_read_back(s: Seq<char>)
    ensures
        ({
            let all = fields(joined(s), Separator::Codepoints);
            characters(all, all.len()) == Ok::<Seq<u32>, int>(codes(s))
        }),
{
    let all = fields(joined(s), Separator::Codepoints);
    if s.len() == 0 {
        let blank = Seq::<char>::empty();
        assert(all == seq![blank]);
        assert(trimmed(blank) == blank);
        assert(token(blank) == Token::Blank);
        assert(codes(s) =~= seq![]);
        assert(characters(all, 0) == Ok::<Seq<u32>, int>(seq![]));
    } else {
        lemma_joined_fields(s);
        lemma_codes_read_back(s, all, s.len());
        assert(s.take(s.len() as int) =~= s);
    }
}

/// What of a line is shown, and which details of its glyphs are not.
#[derive(Copy, Clone, Debug, PartialEq, Eq, Structural)]
pub struct OutputOptions {
    pub short_v: bool,
    pub verbose: bool,
    pub ned: bool,
    pub show_text: bool,
    pub show_unicode: bool,
    pub show_line_num: bool,
    pub no_glyph_names: bool,
    pub no_positions: bool,
    pub no_advances: bool,
    pub no_clusters: bool,
    pub show_extents: bool,
    pub show_flags: bool,
}

/// Spell out the options that stand for others.
pub fn normalize_args(args: OutputOptions) -> (r: OutputOptions)
    ensures
        ({
            let verbose = args.verbose || args.short_v;
            r == (OutputOptions {
                verbose,
                ned: args.ned || args.short_v,
                show_text: args.show_text || verbose,
                show_unicode: args.show_unicode || verbose,
                show_line_num: args.show_line_num || verbose,
                ..args
            })
        }),
{
    let mut args = args;
    if args.short_v {
        args.verbose = true;
        args.ned = true;
    }
    if args.verbose {
        args.show_text = true;
        args.show_unicode = true;
        args.show_line_num = true;
    }
    args
}

/// What a serialised glyph has and has not.
#[derive(Copy, Clone, Debug, PartialEq, Eq, Structural)]
pub struct SerializeOptions {
    pub no_glyph_names: bool,
    pub no_clusters: bool,
    pub no_positions: bool,
    pub no_advances: bool,
    pub glyph_extents: bool,
    pub glyph_flags: bool,
}

/// What a serialised glyph has and has not: without extra data there are neither
/// clusters nor advances.
pub fn serialize_options(args: &OutputOptions) -> (r: SerializeOptions)
    ensures
        r == (SerializeOptions {
            no_glyph_names: args.no_glyph_names,
            no_clusters: args.no_clusters || args.ned,
            no_positions: args.no_positions,
            no_advances: args.no_advances || args.ned,
            glyph_extents: args.show_extents,
            glyph_flags: args.show_flags,
        }),
{
    SerializeOptions {
        no_glyph_names: args.no_glyph_names,
        no_clusters: args.no_clusters || args.ned,
        no_positions: args.no_positions,
        no_advances: args.no_advances || args.ned,
        glyph_extents: args.show_extents,
        glyph_flags: args.show_flags,
    }
}

/// Where the font comes from.
#[derive(Copy, Clone, Debug, PartialEq, Eq, Structural)]
pub enum FontSource {
    Option,
    FirstArgument,
    Missing,
}

/// Where the text comes from.
#[derive(Copy, Clone, Debug, PartialEq, Eq, Structural)]
pub enum TextSource {
    File,
    FirstArgument,
    SecondArgument,
    Unicodes,
    Text,
    Input,
}

/// Which of the ways to name a font and give a text were used.
#[derive(Copy, Clone, Debug, PartialEq, Eq, Structural)]
pub struct Given {
    pub font_file: bool,
    pub first_argument: bool,
    pub second_argument: bool,
    pub text_file: bool,
    pub unicodes: bool,
    pub text: bool,
}

/// Where the font comes from: the option goes before the first argument.
pub fn font_source(given: &Given) -> (r: FontSource)
    ensures
        r == (if given.font_file {
            FontSource::Option
        } else if given.first_argument {
            FontSource::FirstArgument
        } else {
            FontSource::Missing
        }),
{
    if given.font_file {
        FontSource::Option
    } else if given.first_argument {
        FontSource::FirstArgument
    } else {
        FontSource::Missing
    }
}

/// Where the text comes from: a file goes before everything, then the argument
/// after the font's, then codepoints, then text, and last the standard input.
pub open spec fn text_from(given: Given) -> TextSource {
    let argument = if !given.font_file && given.first_argument {
        if given.second_argument {
            Some(TextSource::SecondArgument)
        } else {
            None
        }
    } else if given.first_argument {
        Some(TextSource::FirstArgument)
    } else {
        None
    };
    if given.text_file {
        TextSource::File
    } else if argument is Some {
        argument->0
    } else if given.unicodes {
        TextSource::Unicodes
    } else if given.text {
        TextSource::Text
    } else {
        TextSource::Input
    }
}

/// Where the text comes from.
pub fn text_source(given: &Given) -> (r: TextSource)
    ensures
        r == text_from(*given),
{
    if given.text_file {
        return TextSource::File;
    }
    if !given.font_file && given.first_argument {
        if given.second_argument {
            return TextSource::SecondArgument;
        }
    } else if given.first_argument {
        return TextSource::FirstArgument;
    }
    if given.unicodes {
        TextSource::Unicodes
    } else if given.text {
        TextSource::Text
    } else {
        TextSource::Input
    }
}

/// What of shaping a command line turns on or off.
#[derive(Copy, Clone, Debug, PartialEq, Eq, Structural)]
pub struct FlagOptions {
    pub bot: bool,
    pub eot: bool,
    pub preserve_default_ignorables: bool,
    pub remove_default_ignorables: bool,
    pub unsafe_to_concat: bool,
    pub safe_to_insert_tatweel: bool,
    pub verify: bool,
}

/// What is asked of shaping.
#[derive(Copy, Clone, Debug, PartialEq, Eq, Structural)]
pub struct BufferFlags {
    pub beginning_of_text: bool,
    pub end_of_text: bool,
    pub preserve_default_ignorables: bool,
    pub remove_default_ignorables: bool,
    pub produce_unsafe_to_concat: bool,
    pub produce_safe_to_insert_tatweel: bool,
    pub verify: bool,
}

impl BufferFlags {
    /// Nothing is asked.
    pub open spec fn none() -> BufferFlags {
        BufferFlags {
            beginning_of_text: false,
            end_of_text: false,
            preserve_default_ignorables: false,
            remove_default_ignorables: false,
            produce_unsafe_to_concat: false,
            produce_safe_to_insert_tatweel: false,
            verify: false,
        }
    }

    pub fn empty() -> (r: BufferFlags)
        ensures
            r == BufferFlags::none(),
    {
        BufferFlags {
            beginning_of_text: false,
            end_of_text: false,
            preserve_default_ignorables: false,
            remove_default_ignorables: false,
            produce_unsafe_to_concat: false,
            produce_safe_to_insert_tatweel: false,
            verify: false,
        }
    }
}

/// What is asked of shaping: each flag where its option is given, and no other.
pub fn buffer_flags(args: &FlagOptions) -> (r: BufferFlags)
    ensures
        r == (BufferFlags {
            beginning_of_text: args.bot,
            end_of_text: args.eot,
            preserve_default_ignorables: args.preserve_default_ignorables,
            remove_default_ignorables: args.remove_default_ignorables,
            produce_unsafe_to_concat: args.unsafe_to_concat,
            produce_safe_to_insert_tatweel: args.safe_to_insert_tatweel,
            verify: args.verify,
        }),
{
    BufferFlags {
        beginning_of_text: args.bot,
        end_of_text: args.eot,
        preserve_default_ignorables: args.preserve_default_ignorables,
        remove_default_ignorables: args.remove_default_ignorables,
        produce_unsafe_to_concat: args.unsafe_to_concat,
        produce_safe_to_insert_tatweel: args.safe_to_insert_tatweel,
        verify: args.verify,
    }
}

/// The text before or after a line: codepoints come before plain text.
pub fn context_text<'a>(unicodes: Option<&'a [char]>, text: Option<&'a [char]>) -> (r: Option<&'a [char]>)
    ensures
        r == (match unicodes {
            Some(u) => Some(u),
            None => text,
        }),
{
    match unicodes {
        Some(u) => Some(u),
        None => text,
    }
}

/// What stands before a line of output: its number, where numbers are shown.
pub open spec fn line_prefix(show_line_num: bool, number: int) -> Seq<char> {
    if show_line_num {
        digits(number, 10) + seq![':', ' ']
    } else {
        seq![]
    }
}

/// What is shown for a line of text: the text and its codepoints where they are
/// asked for, and then its glyphs, each on a line of its own.
pub open spec fn line_output(
    args: OutputOptions,
    number: int,
    text: Seq<char>,
    utf8_clusters: bool,
    glyphs: Seq<char>,
) -> Seq<char> {
    let prefix = line_prefix(args.show_line_num, number);
    let told = if args.show_text {
        prefix + seq!['('] + text + seq![')', '\n']
    } else {
        seq![]
    };
    let spelt = if args.show_unicode {
        prefix + shown(text, utf8_clusters) + seq!['\n']
    } else {
        seq![]
    };
    told + spelt + prefix + glyphs + seq!['\n']
}

fn push_all(out: &mut Vec<char>, s: &[char])
    ensures
        final(out)@ == old(out)@ + s@,
{
    let mut i: usize = 0;
    assert(out@ =~= old(out)@ + s@.take(0));
    while i < s.len()
        invariant
            i <= s@.len(),
            out@ == old(out)@ + s@.take(i as int),
        decreases s@.len() - i,
    {
        out.push(s[i]);
        assert(out@ =~= old(out)@ + s@.take(i + 1));
        i += 1;
    }
    assert(s@.take(i as int) =~= s@);
}

fn push_prefix(out: &mut Vec<char>, show_line_num: bool, number: u64)
    ensures
        final(out)@ == old(out)@ + line_prefix(show_line_num, number as int),
{
    if show_line_num {
        push_number(out, number, 10);
        out.push(':');
        out.push(' ');
    }
    assert(out@ =~= old(out)@ + line_prefix(show_line_num, number as int));
}

/// What is shown for a line of text, whose glyphs are already written out.
pub fn render_line(
    args: &OutputOptions,
    number: u64,
    text: &[char],
    utf8_clusters: bool,
    glyphs: &[char],
) -> (out: Vec<char>)
    requires
        text@.len() <= 0x1000_0000_0000_0000,
    ensures
        out@ == line_output(*args, number as int, text@, utf8_clusters, glyphs@),
{
    let mut out: Vec<char> = Vec::new();
    let ghost prefix = line_prefix(args.show_line_num, number as int);
    if args.show_text {
        push_prefix(&mut out, args.show_line_num, number);
        out.push('(');
        push_all(&mut out, text);
        out.push(')');
        out.push('\n');
    }
    let ghost told = out@;
    assert(args.show_text ==> told =~= prefix + seq!['('] + text@ + seq![')', '\n']);
    assert(!args.show_text ==> told =~= seq![]);
    if args.show_unicode {
        push_prefix(&mut out, args.show_line_num, number);
        let spelt = serialize_unicode(text, utf8_clusters);
        push_all(&mut out, &spelt);
        out.push('\n');
    }
    let ghost both = out@;
    assert(args.show_unicode ==> both =~= told + (prefix + shown(text@, utf8_clusters) + seq!['\n']));
    assert(!args.show_unicode ==> both =~= told + seq![]);
    push_prefix(&mut out, args.show_line_num, number);
    push_all(&mut out, glyphs);
    out.push('\n');
    assert(out@ =~= both + prefix + glyphs@ + seq!['\n']);
    out
}

/// A glyph of a line as it is shown.
#[derive(Copy, Clone, Debug, PartialEq, Eq, Structural)]
pub struct ShownGlyph {
    pub glyph: u32,
    pub cluster: u32,
    pub advance: i32,
}

/// A number with its sign, where that is a minus.
pub open spec fn signed_digits(n: int) -> Seq<char> {
    if n < 0 {
        seq!['-'] + digits(-n, 10)
    } else {
        digits(n, 10)
    }
}

/// A glyph written out: its number, its cluster and its advance, those that are
/// shown.
pub open spec fn glyph_output(g: ShownGlyph, o: SerializeOptions) -> Seq<char> {
    let cluster = if o.no_clusters {
        seq![]
    } else {
        seq!['='] + digits(g.cluster as int, 10)
    };
    let advance = if o.no_positions || o.no_advances {
        seq![]
    } else {
        seq!['+'] + signed_digits(g.advance as int)
    };
    digits(g.glyph as int, 10) + cluster + advance
}

/// Glyphs written out, with bars between them.
pub open spec fn glyphs_output(v: Seq<ShownGlyph>, o: SerializeOptions) -> Seq<char>
    decreases v.len(),
{
    if v.len() == 0 {
        seq!['[']
    } else if v.len() == 1 {
        seq!['['] + glyph_output(v[0], o)
    } else {
        glyphs_output(v.drop_last(), o) + seq!['|'] + glyph_output(v.last(), o)
    }
}

fn push_glyph(out: &mut Vec<char>, g: ShownGlyph, o: &SerializeOptions)
    ensures
        final(out)@ == old(out)@ + glyph_output(g, *o),
{
    push_number(out, g.glyph as u64, 10);
    if !o.no_clusters {
        out.push('=');
        push_number(out, g.cluster as u64, 10);
    }
    if !(o.no_positions || o.no_advances) {
        out.push('+');
        if g.advance < 0 {
            out.push('-');
            push_number(out, (-(g.advance as i64)) as u64, 10);
        } else {
            push_number(out, g.advance as u64, 10);
        }
    }
    assert(out@ =~= old(out)@ + glyph_output(g, *o));
}

/// The glyphs of a line written out.
pub fn serialize_glyphs(v: &[ShownGlyph], o: &SerializeOptions) -> (out: Vec<char>)
    ensures
        out@ == glyphs_output(v@, *o).push(']'),
{
    let mut out: Vec<char> = Vec::new();
    out.push('[');
    let mut i: usize = 0;
    assert(out@ =~= glyphs_output(v@.take(0), *o));
    while i < v.len()
        invariant
            i <= v@.len(),
            out@ == glyphs_output(v@.take(i as int), *o),
        decreases v@.len() - i,
    {
        let ghost before = out@;
        if i > 0 {
            out.push('|');
        }
        push_glyph(&mut out, v[i], o);
        proof {
            let now = v@.take(i + 1);
            assert(now.drop_last() =~= v@.take(i as int));
            if i == 0 {
                assert(out@ =~= seq!['['] + glyph_output(now[0], *o));
            } else {
                assert(out@ =~= before + seq!['|'] + glyph_output(now.last(), *o));
            }
        }
        i += 1;
    }
    assert(v@.take(i as int) =~= v@);
    out.push(']');
    out
}

/// Text is one field where nothing in it separates, and text around a separator
/// has the fields of what is before it and then those of what is after.
pub proof fn fields_lie_between_separators(a: Seq<char>, c: char, b: Seq<char>, sep: Separator)
    requires
        separates(sep, c),
    ensures
        fields(a + seq![c] + b, sep) == fields(a, sep) + fields(b, sep),
        (forall|i: int| 0 <= i < b.len() ==> !separates(sep, #[trigger] b[i])) ==> fields(b, sep) == seq![b],
    decreases b.len(),
{
    let s = a + seq![c] + b;
    if b.len() == 0 {
        assert(s.drop_last() =~= a);
        assert(s.last() == c);
        assert(fields(s, sep) =~= fields(a, sep) + fields(b, sep));
        assert(seq![b] =~= seq![Seq::<char>::empty()]) by {
            assert(b =~= Seq::<char>::empty());
        }
    } else {
        let front = b.drop_last();
        fields_lie_between_separators(a, c, front, sep);
        lemma_fields_nonempty(front, sep);
        assert(s.drop_last() =~= a + seq![c] + front);
        assert(s.last() == b.last());
        assert(fields(s, sep) =~= fields(a, sep) + fields(b, sep));
        if forall|i: int| 0 <= i < b.len() ==> !separates(sep, #[trigger] b[i]) {
            assert forall|i: int| 0 <= i < front.len() implies !separates(sep, #[trigger] front[i]) by {
                assert(front[i] == b[i]);
            }
            assert(front.push(b.last()) =~= b);
            assert(fields(b, sep) =~= seq![b]);
        }
    }
}

/// Trimming takes away white space at the ends and nothing else.
pub proof fn trimming_takes_only_white_space(s: Seq<char>) -> (r: (int, int))
    ensures
        0 <= r.0 <= r.1 <= s.len(),
        trimmed(s) == s.subrange(r.0, r.1),
        forall|i: int| 0 <= i < r.0 ==> white(#[trigger] s[i]),
        forall|i: int| r.1 <= i < s.len() ==> white(#[trigger] s[i]),
        r.0 < r.1 ==> !white(s[r.0]) && !white(s[r.1 - 1]),
{
    let from = lemma_trim_start(s);
    let t = s.skip(from);
    let to = lemma_trim_end(t);
    assert(t.take(to) =~= s.subrange(from, from + to));
    assert forall|i: int| from + to <= i < s.len() implies white(#[trigger] s[i]) by {
        assert(t[i - from] == s[i]);
    }
    if to > 0 {
        assert(t[to - 1] == s[from + to - 1]);
    }
    (from, from + to)
}

proof fn lemma_trim_start(s: Seq<char>) -> (n: int)
    ensures
        0 <= n <= s.len(),
        trim_start(s) == s.skip(n),
        forall|i: int| 0 <= i < n ==> white(#[trigger] s[i]),
        n < s.len() ==> !white(s[n]),
    decreases s.len(),
{
    if s.len() > 0 && white(s[0]) {
        let n = lemma_trim_start(s.skip(1));
        assert(s.skip(1).skip(n) =~= s.skip(n + 1));
        assert forall|i: int| 0 <= i < n + 1 implies white(#[trigger] s[i]) by {
            if i > 0 {
                assert(s.skip(1)[i - 1] == s[i]);
            }
        }
        n + 1
    } else {
        assert(s.skip(0) =~= s);
        0
    }
}

proof fn lemma_trim_end(s: Seq<char>) -> (n: int)
    ensures
        0 <= n <= s.len(),
        trim_end(s) == s.take(n),
        forall|i: int| n <= i < s.len() ==> white(#[trigger] s[i]),
        n > 0 ==> !white(s[n - 1]),
    decreases s.len(),
{
    if s.len() > 0 && white(s.last()) {
        let front = s.drop_last();
        let n = lemma_trim_end(front);
        assert(front.take(n) =~= s.take(n));
        assert forall|i: int| n <= i < s.len() implies white(#[trigger] s[i]) by {
            if i < front.len() {
                assert(front[i] == s[i]);
            }
        }
        if n > 0 {
            assert(front[n - 1] == s[n - 1]);
        }
        n
    } else {
        assert(s.take(s.len() as int) =~= s);
        s.len() as int
    }
}

/// A list of codepoints stands for as many characters as it has fields that are
/// not blank, each the character of its field; the first field that is no
/// character is what is wrong with a list.
pub proof fn each_field_stands_for_its_character(all: Seq<Seq<char>>, n: nat, i: int)
    requires
        0 <= i < n <= all.len(),
    ensures
        token(all[i]) is Invalid ==> characters(all, n) is Err && characters(all, n)->Err_0 <= i,
        characters(all, n) is Err ==> 0 <= characters(all, n)->Err_0 < n && token(
            all[characters(all, n)->Err_0],
        ) is Invalid,
        characters(all, n) is Ok && token(all[i]) is Character ==> characters(all, n)->Ok_0.contains(
            token(all[i])->Character_0,
        ),
    decreases n,
{
    if n > 1 {
        let m = (n - 1) as nat;
        if i < m {
            each_field_stands_for_its_character(all, m, i);
        } else {
            each_field_stands_for_its_character(all, m, 0);
        }
        if characters(all, n) is Ok {
            let before = characters(all, m)->Ok_0;
            let now = characters(all, n)->Ok_0;
            if i < m && token(all[i]) is Character {
                let k = choose|k: int| 0 <= k < before.len() && before[k] == token(all[i])->Character_0;
                assert(now[k] == before[k]);
            } else if token(all[i]) is Character {
                assert(now.last() == token(all[i])->Character_0);
            }
        }
    } else {
        reveal_with_fuel(characters, 2);
        if token(all[0]) is Character {
            assert(characters(all, 1)->Ok_0.last() == token(all[0])->Character_0);
        }
    }
}

/// What the first argument is follows from the options: it names the font unless
/// an option does, and then it is the text; it is never both, and a file of text
/// goes before any argument.
pub proof fn an_argument_is_used_once(given: &Given, font: FontSource, text: TextSource)
    requires
        call_ensures(font_source, (given,), font),
        call_ensures(text_source, (given,), text),
    ensures
        !(font == FontSource::FirstArgument && text == TextSource::FirstArgument),
        font == FontSource::Option <==> given.font_file,
        font == FontSource::Missing <==> !given.font_file && !given.first_argument,
        text == TextSource::File <==> given.text_file,
        text == TextSource::SecondArgument ==> font == FontSource::FirstArgument && given.second_argument,
        text == TextSource::FirstArgument ==> font == FontSource::Option && given.first_argument,
        !given.text_file && given.font_file && given.first_argument ==> text == TextSource::FirstArgument,
        !given.text_file && !given.font_file && given.first_argument && given.second_argument ==> text
            == TextSource::SecondArgument,
        text == TextSource::Unicodes ==> given.unicodes,
        text == TextSource::Text ==> given.text && !given.unicodes,
        text == TextSource::Input ==> !given.text && !given.unicodes && !given.text_file,
{
}

/// Options that stand for others turn those on and nothing off, and spelling them
/// out again changes nothing.
pub proof fn spelling_options_out_only_adds(args: OutputOptions, r: OutputOptions, again: OutputOptions)
    requires
        call_ensures(normalize_args, (args,), r),
        call_ensures(normalize_args, (r,), again),
    ensures
        again == r,
        args.short_v ==> r.verbose && r.ned,
        args.verbose || args.short_v ==> r.show_text && r.show_unicode && r.show_line_num,
        !args.verbose && !args.short_v ==> r == args,
        !args.short_v ==> r.ned == args.ned,
        args.show_text ==> r.show_text,
        args.show_unicode ==> r.show_unicode,
        args.show_line_num ==> r.show_line_num,
        args.ned ==> r.ned,
        r.no_clusters == args.no_clusters && r.no_advances == args.no_advances && r.no_positions
            == args.no_positions && r.no_glyph_names == args.no_glyph_names && r.show_extents
            == args.show_extents && r.show_flags == args.show_flags,
{
}

/// Without extra data neither clusters nor advances are written, and nothing is
/// written that was turned off.
pub proof fn what_is_turned_off_is_not_written(args: &OutputOptions, r: SerializeOptions)
    requires
        call_ensures(serialize_options, (args,), r),
    ensures
        args.ned ==> r.no_clusters && r.no_advances,
        !args.ned ==> r.no_clusters == args.no_clusters && r.no_advances == args.no_advances,
        args.no_clusters ==> r.no_clusters,
        args.no_advances ==> r.no_advances,
        r.no_positions == args.no_positions,
        r.no_glyph_names == args.no_glyph_names,
        r.glyph_extents == args.show_extents,
        r.glyph_flags == args.show_flags,
{
}

/// Each flag is asked for by its own option and by no other; without options
/// nothing is asked.
pub proof fn each_flag_has_its_option(args: &FlagOptions, r: BufferFlags, none: BufferFlags)
    requires
        call_ensures(buffer_flags, (args,), r),
        call_ensures(BufferFlags::empty, (), none),
    ensures
        r.beginning_of_text <==> args.bot,
        r.end_of_text <==> args.eot,
        r.preserve_default_ignorables <==> args.preserve_default_ignorables,
        r.remove_default_ignorables <==> args.remove_default_ignorables,
        r.produce_unsafe_to_concat <==> args.unsafe_to_concat,
        r.produce_safe_to_insert_tatweel <==> args.safe_to_insert_tatweel,
        r.verify <==> args.verify,
        !args.bot && !args.eot && !args.preserve_default_ignorables && !args.remove_default_ignorables
            && !args.unsafe_to_concat && !args.safe_to_insert_tatweel && !args.verify ==> r == none,
{
}

/// Levels are named by the digits from zero on, in their order.
pub proof fn a_digit_names_its_level(s: &[char], r: Option<BufferClusterLevel>)
    requires
        call_ensures(parse_cluster, (s,), r),
    ensures
        r is Some <==> s@.len() == 1 && '0' <= s@[0] <= '3',
        r is Some && s@[0] == '0' ==> r->0 == BufferClusterLevel::MonotoneGraphemes,
        r is Some && s@[0] == '1' ==> r->0 == BufferClusterLevel::MonotoneCharacters,
        r is Some && s@[0] == '2' ==> r->0 == BufferClusterLevel::Characters,
        r is Some && s@[0] == '3' ==> r->0 == BufferClusterLevel::Graphemes,
{
    if s@.len() == 1 {
        assert(s@ =~= seq![s@[0]]);
    }
    if r is Some {
        assert(s@.len() == 1);
    }
    let (zero, one, two, three) = (seq!['0'], seq!['1'], seq!['2'], seq!['3']);
    assert(zero[0] == '0' && one[0] == '1' && two[0] == '2' && three[0] == '3');
}

/// The text around a line is given by codepoints where there are any.
pub proof fn codepoints_go_before_text<'a>(
    unicodes: Option<&'a [char]>,
    text: Option<&'a [char]>,
    r: Option<&'a [char]>,
)
    requires
        call_ensures(context_text, (unicodes, text), r),
    ensures
        unicodes is Some ==> r == unicodes,
        unicodes is None ==> r == text,
{
}

/// Glyphs are written one after the other, with bars between them: the last one
/// is written as it is by itself, whatever comes before it.
pub proof fn glyphs_are_written_one_by_one(
    v: &[ShownGlyph],
    front: &[ShownGlyph],
    last: &[ShownGlyph],
    o: &SerializeOptions,
    out: Vec<char>,
    before: Vec<char>,
    own: Vec<char>,
)
    requires
        front@.len() > 0,
        last@.len() == 1,
        v@ == front@ + last@,
        call_ensures(serialize_glyphs, (v, o), out),
        call_ensures(serialize_glyphs, (front, o), before),
        call_ensures(serialize_glyphs, (last, o), own),
    ensures
        out@ == before@.drop_last() + seq!['|'] + own@.skip(1),
        own@[0] == '[' && own@.last() == ']' && out@.last() == ']',
        ({
            let g = last@[0];
            let number = digits(g.glyph as int, 10);
            let cluster = digits(g.cluster as int, 10);
            let advance = digits(
                if g.advance < 0 {
                    -(g.advance as int)
                } else {
                    g.advance as int
                },
                10,
            );
            let sign = if g.advance < 0 {
                seq!['+', '-']
            } else {
                seq!['+']
            };
            let inner = own@.subrange(1, own@.len() - 1);
            &&& o.no_clusters && (o.no_positions || o.no_advances) ==> inner == number
            &&& !o.no_clusters && (o.no_positions || o.no_advances) ==> inner == number + seq!['='] + cluster
            &&& o.no_clusters && !o.no_positions && !o.no_advances ==> inner == number + sign + advance
            &&& !o.no_clusters && !o.no_positions && !o.no_advances ==> inner == number + seq!['='] + cluster
                + sign + advance
        }),
{
    assert(v@.drop_last() =~= front@);
    assert(v@.last() == last@[0]);
    let shown = glyph_output(last@[0], *o);
    assert(own@ =~= seq!['['] + shown + seq![']']);
    assert(before@.drop_last() =~= glyphs_output(front@, *o));
    assert(own@.skip(1) =~= shown + seq![']']);
    assert(out@ =~= before@.drop_last() + seq!['|'] + own@.skip(1));
    assert(own@.subrange(1, own@.len() - 1) =~= shown);
    let g = last@[0];
    let number = digits(g.glyph as int, 10);
    let cluster = digits(g.cluster as int, 10);
    if o.no_clusters && (o.no_positions || o.no_advances) {
        assert(shown =~= number);
    } else if o.no_positions || o.no_advances {
        assert(shown =~= number + seq!['='] + cluster);
    } else {
        let sign = if g.advance < 0 {
            seq!['+', '-']
        } else {
            seq!['+']
        };
        let advance = digits(
            if g.advance < 0 {
                -(g.advance as int)
            } else {
                g.advance as int
            },
            10,
        );
        assert(seq!['+'] + signed_digits(g.advance as int) =~= sign + advance);
        if o.no_clusters {
            assert(shown =~= number + sign + advance);
        } else {
            assert(shown =~= number + seq!['='] + cluster + sign + advance);
        }
    }
}

/// Every line that is shown ends what comes before it: the glyphs always come
/// last, after the same number as the text and the codepoints.
pub proof fn a_line_ends_with_its_glyphs(
    args: &OutputOptions,
    number: u64,
    text: &[char],
    utf8_clusters: bool,
    glyphs: &[char],
    out: Vec<char>,
    spelt: Vec<char>,
)
    requires
        text@.len() <= 0x1000_0000_0000_0000,
        call_ensures(render_line, (args, number, text, utf8_clusters, glyphs), out),
        call_ensures(serialize_unicode, (text, utf8_clusters), spelt),
    ensures
        ({
            let prefix = if args.show_line_num {
                digits(number as int, 10) + seq![':', ' ']
            } else {
                seq![]
            };
            let told = prefix + seq!['('] + text@ + seq![')', '\n'];
            let codes = prefix + spelt@ + seq!['\n'];
            let last = prefix + glyphs@ + seq!['\n'];
            &&& !args.show_text && !args.show_unicode ==> out@ == last
            &&& args.show_text && !args.show_unicode ==> out@ == told + last
            &&& !args.show_text && args.show_unicode ==> out@ == codes + last
            &&& args.show_text && args.show_unicode ==> out@ == told + codes + last
        }),
{
    let prefix = if args.show_line_num {
        digits(number as int, 10) + seq![':', ' ']
    } else {
        seq![]
    };
    let told = prefix + seq!['('] + text@ + seq![')', '\n'];
    let codes = prefix + spelt@ + seq!['\n'];
    let last = prefix + glyphs@ + seq!['\n'];
    if args.show_text && args.show_unicode {
        assert(out@ =~= told + codes + last);
    } else if args.show_text {
        assert(out@ =~= told + last);
    } else if args.show_unicode {
        assert(out@ =~= codes + last);
    } else {
        assert(out@ =~= last);
    }
}

/// A codepoint may be marked as one, in either case, and stands for the same
/// character as without the mark; only one mark is taken off.
pub proof fn a_mark_changes_nothing(s: Seq<char>)
    ensures
        unmarked(seq!['U', '+'] + s) == s,
        unmarked(seq!['u', '+'] + s) == s,
        unmarked(seq!['0', 'x'] + s) == s,
        unmarked(seq!['0', 'X'] + s) == s,
        s.len() > 0 && s[0] != 'U' && s[0] != 'u' && s[0] != '0' ==> unmarked(s) == s,
        s.len() > 1 && s[1] != '+' && s[1] != 'x' && s[1] != 'X' ==> unmarked(s) == s,
{
    assert((seq!['U', '+'] + s).skip(2) =~= s);
    assert((seq!['u', '+'] + s).skip(2) =~= s);
    assert((seq!['0', 'x'] + s).skip(2) =~= s);
    assert((seq!['0', 'X'] + s).skip(2) =~= s);
}

/// The space and the control characters that move the line are white, as are the
/// spaces of other widths; nothing that is printed is.
pub proof fn what_is_printed_is_not_white(c: char)
    ensures
        c == ' ' || c == '\t' || c == '\n' || c == '\r' ==> white(c),
        0x2000 <= c as u32 <= 0x200A || c as u32 == 0x3000 || c as u32 == 0xA0 ==> white(c),
        0x21 <= c as u32 <= 0x7E ==> !white(c),
        0xA1 <= c as u32 <= 0x167F || 0x3001 <= c as u32 || c as u32 == 0x200B ==> !white(c),
        (c as u32) < 9 ==> !white(c),
{
}

/// A field stands for the character of its number; one that is blank stands for
/// nothing, and the numbers of no character, those past the last and the halves of
/// pairs, are invalid.
pub proof fn a_field_stands_for_a_character(s: Seq<char>)
    ensures
        trimmed(s).len() == 0 <==> token(s) is Blank,
        token(s) is Character ==> number(unmarked(trimmed(s)), 16) == Some(token(s)->Character_0),
        token(s) is Character ==> token(s)->Character_0 < 0x11_0000 && (token(s)->Character_0 < 0xD800
            || token(s)->Character_0 >= 0xE000),
        trimmed(s).len() > 0 && number(unmarked(trimmed(s)), 16) is None ==> token(s) is Invalid,
        trimmed(s).len() > 0 && number(unmarked(trimmed(s)), 16) is Some && number(
            unmarked(trimmed(s)),
            16,
        )->0 < 0xD800 ==> token(s) is Character,
        trimmed(s).len() > 0 && number(unmarked(trimmed(s)), 16) is Some && 0xE000 <= number(
            unmarked(trimmed(s)),
            16,
        )->0 < 0x11_0000 ==> token(s) is Character,
{
}

/// Of some texts those that are not empty are kept, each of them and no other.
pub proof fn only_empty_texts_are_left_out(s: Seq<Seq<char>>, t: Seq<char>)
    ensures
        filled(s).contains(t) <==> s.contains(t) && t.len() > 0,
        filled(s).len() <= s.len(),
        (forall|i: int| 0 <= i < s.len() ==> (#[trigger] s[i]).len() > 0) ==> filled(s) == s,
    decreases s.len(),
{
    if s.len() > 0 {
        let less = s.drop_last();
        only_empty_texts_are_left_out(less, t);
        let before = filled(less);
        let now = filled(s);
        if now.contains(t) {
            let k = choose|k: int| 0 <= k < now.len() && now[k] == t;
            if k < before.len() {
                assert(before[k] == t);
                let j = choose|j: int| 0 <= j < less.len() && less[j] == t;
                assert(s[j] == t);
            } else {
                assert(s[s.len() - 1] == t);
            }
        }
        if s.contains(t) && t.len() > 0 {
            let j = choose|j: int| 0 <= j < s.len() && s[j] == t;
            if j < less.len() {
                assert(less[j] == t);
                let k = choose|k: int| 0 <= k < before.len() && before[k] == t;
                assert(now[k] == t);
            } else {
                assert(now.last() == t);
            }
        }
        if forall|i: int| 0 <= i < s.len() ==> (#[trigger] s[i]).len() > 0 {
            assert forall|i: int| 0 <= i < less.len() implies (#[trigger] less[i]).len() > 0 by {
                assert(less[i] == s[i]);
            }
            assert(s[s.len() - 1].len() > 0);
            assert(less.push(s.last()) =~= s);
        }
    } else {
        assert(filled(s) =~= s);
    }
}

/// Codepoints are separated by commas, semicolons, spaces and tabs, lines by
/// newlines only, and options by spaces only.
pub proof fn each_list_has_its_separators(c: char)
    ensures
        separates(Separator::Newline, c) <==> c as u32 == 0x0A,
        separates(Separator::Space, c) <==> c as u32 == 0x20,
        separates(Separator::Codepoints, c) <==> c as u32 == 0x2C || c as u32 == 0x3B || c as u32 == 0x20 || c as u32
            == 0x09,
{
}

} // verus!

//! Turning the bytes of a TXT file into text: which encoding, which byte-order
//! mark, and one newline convention.
use vstd::prelude::*;
use crate::text::{from_chars, to_chars};

verus! {

pub struct Decoded {
    pub encoding: &'static str,
    /// Newlines normalised to `\n`, BOM stripped. Full-width spaces preserved:
    /// they carry the paragraph-indent signal the rest of the pipeline reads.
    pub text: String,
}

/// `\r\n` and lone `\r` both become `\n`.
pub open spec fn unix_newlines(s: Seq<char>) -> Seq<char>
    decreases s.len(),
{
    if s.len() == 0 {
        s
    } else if s[0] == '\r' && s.len() > 1 && s[1] == '\n' {
        seq!['\n'] + unix_newlines(s.skip(2))
    } else if s[0] == '\r' {
        seq!['\n'] + unix_newlines(s.skip(1))
    } else {
        seq![s[0]] + unix_newlines(s.skip(1))
    }
}

/// Normalise newlines to `\n`.
pub fn normalize_newlines(text: &str) -> (r: String)
    ensures
        r@ == unix_newlines(text@),
{
    let v = to_chars(text);
    let mut out: Vec<char> = Vec::new();
    let mut i: usize = 0;
    assert(v@.skip(0) =~= v@);
    while i < v.len()
        invariant
            i <= v@.len(),
            out@ + unix_newlines(v@.skip(i as int)) == unix_newlines(v@),
        decreases v.len() - i,
    {
        let ghost before = out@;
        if v[i] == '\r' && i + 1 < v.len() && v[i + 1] == '\n' {
            out.push('\n');
            assert(v@.skip(i as int).skip(2) =~= v@.skip(i + 2));
            assert(out@ + unix_newlines(v@.skip(i + 2)) =~= before + unix_newlines(v@.skip(i as int)));
            i += 2;
        } else {
            out.push(if v[i] == '\r' { '\n' } else { v[i] });
            assert(v@.skip(i as int).skip(1) =~= v@.skip(i + 1));
            assert(out@ + unix_newlines(v@.skip(i + 1)) =~= before + unix_newlines(v@.skip(i as int)));
            i += 1;
        }
    }
    assert(v@.skip(i as int) =~= Seq::<char>::empty());
    assert(out@ + Seq::<char>::empty() =~= out@);
    from_chars(out.as_slice())
}


/// Bytes that are well-formed UTF-8 (`std::str::from_utf8` succeeds).
#[verifier::external_body]
fn is_utf8(raw: &[u8]) -> (r: bool)
    ensures
        r == vstd::utf8::valid_utf8(raw@),
{
    std::str::from_utf8(raw).is_ok()
}

/// The canonical name of the encoding a label denotes (`Encoding::for_label`
/// then `Encoding::name`), if the label denotes one.
pub uninterp spec fn label_encoding(label: Seq<char>) -> Option<Seq<char>>;

/// The text `Encoding::decode_without_bom_handling` makes of the bytes in
/// the named encoding (malformed sequences become U+FFFD).
pub uninterp spec fn decoded_text(encoding: Seq<char>, body: Seq<u8>) -> Seq<char>;

/// The encoding chardetng guesses for the whole of the bytes, UTF-8
/// allowed and no top-level domain, by its canonical name.
pub uninterp spec fn detector_guess(raw: Seq<u8>) -> Seq<char>;

/// `Encoding::for_label(label)`, by the encoding's canonical name.
#[verifier::external_body]
fn encoding_for(label: &str) -> (r: Option<&'static str>)
    ensures
        match r {
            None => label_encoding(label@) is None,
            Some(n) => label_encoding(label@) == Some(n@),
        },
{
    encoding_rs::Encoding::for_label(label.as_bytes()).map(|e| e.name())
}

/// The encoding a label denotes, and the body decoded in it without BOM
/// sniffing; none when the label denotes no encoding.
#[verifier::external_body]
fn decode_labelled(label: &str, body: &[u8]) -> (r: Option<(&'static str, String)>)
    ensures
        match r {
            None => label_encoding(label@) is None,
            Some(x) => label_encoding(label@) == Some(x.0@) && x.1@ == decoded_text(x.0@, body@),
        },
{
    encoding_rs::Encoding::for_label(label.as_bytes()).map(|e| (e.name(), e.decode_without_bom_handling(body).0.into_owned()))
}

/// chardetng's guess for the bytes, by name.
#[verifier::external_body]
fn guess_encoding(raw: &[u8]) -> (r: &'static str)
    ensures
        r@ == detector_guess(raw@),
{
    let mut det = chardetng::EncodingDetector::new();
    det.feed(raw, true);
    det.guess(None, true).name()
}

/// Which encoding to read the bytes in, and where the text starts: a byte
/// order mark decides; else valid UTF-8 is UTF-8; else the detector's guess,
/// with GB18030 in place of a UTF-8 guess (Chinese TXT in the wild is
/// overwhelmingly GB18030).
pub open spec fn sniff(raw: Seq<u8>) -> (Seq<char>, int) {
    if raw.len() >= 2 && raw[0] == 0xFF && raw[1] == 0xFE {
        ("UTF-16LE"@, 2)
    } else if raw.len() >= 2 && raw[0] == 0xFE && raw[1] == 0xFF {
        ("UTF-16BE"@, 2)
    } else if raw.len() >= 3 && raw[0] == 0xEF && raw[1] == 0xBB && raw[2] == 0xBF {
        ("UTF-8"@, 3)
    } else if vstd::utf8::valid_utf8(raw) {
        ("UTF-8"@, 0)
    } else if detector_guess(raw) == "UTF-8"@ {
        ("gb18030"@, 0)
    } else {
        (detector_guess(raw), 0)
    }
}

/// The bytes decoded from `start` in the encoding labelled `label`, newlines
/// normalised, named by the encoding's canonical name; nothing when the
/// label denotes no encoding.
pub open spec fn decoded_ok(label: Seq<char>, body: Seq<u8>, r: Decoded) -> bool {
    match label_encoding(label) {
        Some(n) => r.encoding@ == n && r.text@ == unix_newlines(decoded_text(n, body)),
        None => r.encoding@ == label && r.text@.len() == 0,
    }
}

fn finish(label: &'static str, body: &[u8]) -> (r: Decoded)
    ensures
        decoded_ok(label@, body@, r),
{
    match decode_labelled(label, body) {
        Some((name, text)) => Decoded { encoding: name, text: normalize_newlines(text.as_str()) },
        None => Decoded { encoding: label, text: String::new() },
    }
}

/// The text of a TXT file's bytes, in the encoding sniffed from them.
pub fn decode(raw: &[u8]) -> (r: Decoded)
    ensures
        decoded_ok(sniff(raw@).0, raw@.subrange(sniff(raw@).1, raw@.len() as int), r),
{
    proof {
        reveal_strlit("UTF-16LE");
        reveal_strlit("UTF-16BE");
        reveal_strlit("UTF-8");
        reveal_strlit("gb18030");
    }
    let n = raw.len();
    if n >= 2 && raw[0] == 0xFF && raw[1] == 0xFE {
        return finish("UTF-16LE", vstd::slice::slice_subrange(raw, 2, n));
    }
    if n >= 2 && raw[0] == 0xFE && raw[1] == 0xFF {
        return finish("UTF-16BE", vstd::slice::slice_subrange(raw, 2, n));
    }
    if n >= 3 && raw[0] == 0xEF && raw[1] == 0xBB && raw[2] == 0xBF {
        return finish("UTF-8", vstd::slice::slice_subrange(raw, 3, n));
    }
    assert(raw@.subrange(0, n as int) =~= raw@);
    if is_utf8(raw) {
        return finish("UTF-8", raw);
    }
    let guess = guess_encoding(raw);
    if crate::romance::ledger::str_same(guess, "UTF-8") {
        finish("gb18030", raw)
    } else {
        finish(guess, raw)
    }
}

/// The byte-order mark a chosen encoding drops: only its own.
pub open spec fn own_bom(n: Seq<char>, raw: Seq<u8>) -> int {
    if n == "UTF-16LE"@ && raw.len() >= 2 && raw[0] == 0xFF && raw[1] == 0xFE {
        2
    } else if n == "UTF-16BE"@ && raw.len() >= 2 && raw[0] == 0xFE && raw[1] == 0xFF {
        2
    } else if n == "UTF-8"@ && raw.len() >= 3 && raw[0] == 0xEF && raw[1] == 0xBB && raw[2] == 0xBF {
        3
    } else {
        0
    }
}

/// The bytes decoded in the encoding the user chose, with no sniffing; none
/// when the label denotes no encoding.
pub fn decode_as(raw: &[u8], label: &str) -> (r: Option<Decoded>)
    ensures
        match label_encoding(label@) {
            None => r is None,
            Some(n) => r matches Some(d) && d.encoding@ == n && d.text@ == unix_newlines(
                decoded_text(n, raw@.subrange(own_bom(n, raw@), raw@.len() as int)),
            ),
        },
{
    let name = match encoding_for(label) {
        None => {
            return None;
        },
        Some(n) => n,
    };
    let n = raw.len();
    let le = crate::romance::ledger::str_same(name, "UTF-16LE");
    let be = crate::romance::ledger::str_same(name, "UTF-16BE");
    let u8 = crate::romance::ledger::str_same(name, "UTF-8");
    let skip: usize = if le && n >= 2 && raw[0] == 0xFF && raw[1] == 0xFE {
        2
    } else if be && n >= 2 && raw[0] == 0xFE && raw[1] == 0xFF {
        2
    } else if u8 && n >= 3 && raw[0] == 0xEF && raw[1] == 0xBB && raw[2] == 0xBF {
        3
    } else {
        0
    };
    let body = vstd::slice::slice_subrange(raw, skip, n);
    match decode_labelled(label, body) {
        Some((enc, text)) => Some(Decoded { encoding: enc, text: normalize_newlines(text.as_str()) }),
        None => None,
    }
}

} // verus!

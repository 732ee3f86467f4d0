//! Styled text spans and the signature by which shaped text is cached.
use vstd::prelude::*;
use vstd::wrapping::u64_specs;
use vstd::arithmetic::div_mod::lemma_add_mod_noop_right;
use vstd::arithmetic::div_mod::lemma_mul_mod_noop_left;
use vstd::arithmetic::div_mod::lemma_fundamental_div_mod;
use vstd::arithmetic::div_mod::lemma_mod_pos_bound;
use crate::color::LinearRGB;

verus! {

/// How a span of text is drawn: its color.
#[derive(Clone, Copy, Debug)]
pub struct TextStyle {
    pub(crate) color: LinearRGB,
}

impl TextStyle {
    pub closed spec fn spec_color(&self) -> LinearRGB {
        self.color
    }

    /// A style that draws text in `color`.
    pub fn new(color: LinearRGB) -> (style: Self)
        ensures
            style.spec_color() == color,
    {
        Self { color }
    }

    /// The color text is drawn in.
    pub fn color(&self) -> (color: LinearRGB)
        ensures
            color == self.spec_color(),
    {
        self.color
    }
}

/// A run of text drawn in one style.
#[derive(Clone, Debug)]
pub struct TextSpan {
    pub(crate) content: String,
    pub(crate) style: TextStyle,
}

impl TextSpan {
    pub closed spec fn spec_content(&self) -> Seq<char> {
        self.content@
    }

    pub closed spec fn spec_style(&self) -> TextStyle {
        self.style
    }

    /// A span holding a copy of `content`.
    pub fn new(content: &str, style: TextStyle) -> (span: Self)
        ensures
            span.spec_content() == content@,
            span.spec_style() == style,
    {
        Self { content: content.to_owned(), style }
    }

    /// The span's text.
    pub fn content(&self) -> (content: &str)
        ensures
            content@ == self.spec_content(),
    {
        self.content.as_str()
    }

    /// The span's style.
    pub fn style(&self) -> (style: TextStyle)
        ensures
            style == self.spec_style(),
    {
        self.style
    }
}

/// One step of the signature hash: multiply by 31 and add `value`, both
/// wrapping at 2^64.
pub open spec fn mix(hash: u64, value: u64) -> u64 {
    u64_specs::wrapping_add(u64_specs::wrapping_mul(hash, 31), value)
}

/// [`mix`] each byte of `bytes` into `hash`, first to last.
pub open spec fn mix_bytes(hash: u64, bytes: Seq<u8>) -> u64
    decreases bytes.len(),
{
    if bytes.len() == 0 {
        hash
    } else {
        mix(mix_bytes(hash, bytes.drop_last()), bytes.last() as u64)
    }
}

/// `hash` after a span: its UTF-8 length, its UTF-8 bytes, then its color's
/// four bytes.
pub open spec fn mix_span(hash: u64, span: TextSpan) -> u64 {
    let bytes = vstd::utf8::encode_utf8(span.spec_content());
    let color = span.spec_style().spec_color()@;
    mix_bytes(mix_bytes(mix(hash, bytes.len() as u64), bytes), seq![color.0, color.1, color.2, color.3])
}

/// [`mix_span`] each span into `hash`, first to last.
pub open spec fn mix_spans(hash: u64, spans: Seq<TextSpan>) -> u64
    decreases spans.len(),
{
    if spans.len() == 0 {
        hash
    } else {
        mix_span(mix_spans(hash, spans.drop_last()), spans.last())
    }
}

/// The signature of a text: the number of spans, then each span mixed in.
pub open spec fn signature(spans: Seq<TextSpan>) -> u64 {
    mix_spans(spans.len() as u64, spans)
}

fn mix_slice(hash: u64, bytes: &[u8]) -> (mixed: u64)
    ensures
        mixed == mix_bytes(hash, bytes@),
{
    let mut mixed = hash;
    let mut i: usize = 0;
    while i < bytes.len()
        invariant
            0 <= i <= bytes@.len(),
            mixed == mix_bytes(hash, bytes@.take(i as int)),
        decreases bytes@.len() - i,
    {
        assert(bytes@.take(i + 1).drop_last() =~= bytes@.take(i as int));
        mixed = mixed.wrapping_mul(31).wrapping_add(bytes[i] as u64);
        i = i + 1;
    }
    assert(bytes@.take(bytes@.len() as int) =~= bytes@);
    mixed
}

/// A hash of the spans' contents and colors (see [`signature`]), by which
/// shaped text is reused while it does not change.
pub fn text_signature(spans: &[TextSpan]) -> (hash: u64)
    ensures
        hash == signature(spans@),
{
    let mut hash = spans.len() as u64;
    let ghost start = hash;
    let mut i: usize = 0;
    while i < spans.len()
        invariant
            0 <= i <= spans@.len(),
            start == spans@.len() as u64,
            hash == mix_spans(start, spans@.take(i as int)),
        decreases spans@.len() - i,
    {
        assert(spans@.take(i + 1).drop_last() =~= spans@.take(i as int));
        let span = &spans[i];
        let bytes = span.content.as_str().as_bytes();
        hash = hash.wrapping_mul(31).wrapping_add(bytes.len() as u64);
        hash = mix_slice(hash, bytes);
        let color = span.style.color.as_bytes();
        hash = mix_slice(hash, &color);
        i = i + 1;
    }
    assert(spans@.take(spans@.len() as int) =~= spans@);
    hash
}

/// How much a color weighs in the signature: its four bytes, red first,
/// read as a number in base 31.
pub open spec fn color_weight(color: (u8, u8, u8, u8)) -> int {
    color.0 * 29791 + color.1 * 961 + color.2 * 31 + color.3
}

/// [`mix`] is `hash * 31 + value` modulo 2^64.
proof fn lemma_mix_value(hash: u64, value: u64)
    ensures
        mix(hash, value) as int == (hash * 31 + value) % 0x1_0000_0000_0000_0000int,
{
    let m: int = 0x1_0000_0000_0000_0000int;
    let product: int = (hash * 31) % m;
    assert(u64_specs::wrapping_mul(hash, 31) as int == product);
    lemma_add_mod_noop_right(value as int, hash * 31, m);
    assert((value + product) % m == (value + hash * 31) % m);
}

/// Distinct hashes stay distinct after the same value is mixed into both:
/// multiplying by 31, which is odd, loses nothing modulo 2^64.
proof fn lemma_mix_injective(h1: u64, h2: u64, value: u64)
    requires
        mix(h1, value) == mix(h2, value),
    ensures
        h1 == h2,
{
    lemma_mix_value(h1, value);
    lemma_mix_value(h2, value);
    assert(((h1 * 31 + value) % 0x1_0000_0000_0000_0000int == (h2 * 31 + value) % 0x1_0000_0000_0000_0000int) ==> h1 == h2)
        by (bit_vector);
}

proof fn lemma_mix_bytes_injective(h1: u64, h2: u64, bytes: Seq<u8>)
    requires
        mix_bytes(h1, bytes) == mix_bytes(h2, bytes),
    ensures
        h1 == h2,
    decreases bytes.len(),
{
    if bytes.len() > 0 {
        lemma_mix_injective(mix_bytes(h1, bytes.drop_last()), mix_bytes(h2, bytes.drop_last()), bytes.last() as u64);
        lemma_mix_bytes_injective(h1, h2, bytes.drop_last());
    }
}

proof fn lemma_mix_spans_injective(h1: u64, h2: u64, spans: Seq<TextSpan>)
    requires
        mix_spans(h1, spans) == mix_spans(h2, spans),
    ensures
        h1 == h2,
    decreases spans.len(),
{
    if spans.len() > 0 {
        let a = mix_spans(h1, spans.drop_last());
        let b = mix_spans(h2, spans.drop_last());
        let span = spans.last();
        let bytes = vstd::utf8::encode_utf8(span.spec_content());
        let color = span.spec_style().spec_color()@;
        let tail = seq![color.0, color.1, color.2, color.3];
        lemma_mix_bytes_injective(mix_bytes(mix(a, bytes.len() as u64), bytes), mix_bytes(mix(b, bytes.len() as u64), bytes), tail);
        lemma_mix_bytes_injective(mix(a, bytes.len() as u64), mix(b, bytes.len() as u64), bytes);
        lemma_mix_injective(a, b, bytes.len() as u64);
        lemma_mix_spans_injective(h1, h2, spans.drop_last());
    }
}

proof fn lemma_mix_spans_append(hash: u64, first: Seq<TextSpan>, second: Seq<TextSpan>)
    ensures
        mix_spans(hash, first + second) == mix_spans(mix_spans(hash, first), second),
    decreases second.len(),
{
    if second.len() == 0 {
        assert(first + second =~= first);
    } else {
        assert((first + second).drop_last() =~= first + second.drop_last());
        lemma_mix_spans_append(hash, first, second.drop_last());
    }
}

/// Mixing `value` into a hash that is `prev` modulo 2^64 gives
/// `prev * 31 + value` modulo 2^64.
proof fn lemma_mix_step(hash: u64, prev: int, value: u64)
    requires
        hash as int == prev % 0x1_0000_0000_0000_0000int,
    ensures
        mix(hash, value) as int == (prev * 31 + value) % 0x1_0000_0000_0000_0000int,
{
    let m: int = 0x1_0000_0000_0000_0000int;
    lemma_mix_value(hash, value);
    lemma_mul_mod_noop_left(prev, 31, m);
    lemma_add_mod_noop_right(value as int, (prev % m) * 31, m);
    lemma_add_mod_noop_right(value as int, prev * 31, m);
}

/// Mixing four bytes is mixing each in turn.
proof fn lemma_mix_four(hash: u64, color: (u8, u8, u8, u8))
    ensures
        mix_bytes(hash, seq![color.0, color.1, color.2, color.3])
            == mix(mix(mix(mix(hash, color.0 as u64), color.1 as u64), color.2 as u64), color.3 as u64),
{
    let b1 = seq![color.0];
    let b2 = seq![color.0, color.1];
    let b3 = seq![color.0, color.1, color.2];
    let b4 = seq![color.0, color.1, color.2, color.3];
    assert(b1.drop_last() =~= Seq::<u8>::empty());
    assert(b2.drop_last() =~= b1);
    assert(b3.drop_last() =~= b2);
    assert(b4.drop_last() =~= b3);
    assert(mix_bytes(hash, Seq::<u8>::empty()) == hash);
    assert(mix_bytes(hash, b1) == mix(hash, color.0 as u64));
    assert(mix_bytes(hash, b2) == mix(mix_bytes(hash, b1), color.1 as u64));
    assert(mix_bytes(hash, b3) == mix(mix_bytes(hash, b2), color.2 as u64));
    assert(mix_bytes(hash, b4) == mix(mix_bytes(hash, b3), color.3 as u64));
}

/// The last step of a span: its color's four bytes mixed into `hash`.
proof fn lemma_mix_color(hash: u64, color: (u8, u8, u8, u8))
    ensures
        mix_bytes(hash, seq![color.0, color.1, color.2, color.3]) as int
            == (hash * 923521 + color_weight(color)) % 0x1_0000_0000_0000_0000int,
{
    lemma_mix_four(hash, color);
    let h1 = mix(hash, color.0 as u64);
    let h2 = mix(h1, color.1 as u64);
    let h3 = mix(h2, color.2 as u64);
    let a: int = hash * 31 + color.0;
    let b: int = a * 31 + color.1;
    let c: int = b * 31 + color.2;
    let d: int = c * 31 + color.3;
    lemma_mix_value(hash, color.0 as u64);
    lemma_mix_step(h1, a, color.1 as u64);
    lemma_mix_step(h2, b, color.2 as u64);
    lemma_mix_step(h3, c, color.3 as u64);
    assert(d == hash * 923521 + color_weight(color)) by (nonlinear_arith)
        requires
            a == hash * 31 + color.0,
            b == a * 31 + color.1,
            c == b * 31 + color.2,
            d == c * 31 + color.3;
}

/// Two sums that differ only in a term below the modulus agree modulo it
/// only when the terms agree.
proof fn lemma_mod_cancel(base: int, x: int, y: int, m: int)
    requires
        0 < m,
        0 <= base,
        0 <= x < m,
        0 <= y < m,
        (base + x) % m == (base + y) % m,
    ensures
        x == y,
{
    lemma_add_mod_noop_right(x, base, m);
    lemma_add_mod_noop_right(y, base, m);
    let r: int = base % m;
    lemma_mod_pos_bound(base, m);
    let t: int = (x + r) % m;
    assert((y + r) % m == t);
    lemma_fundamental_div_mod(x + r, m);
    lemma_fundamental_div_mod(y + r, m);
    let qx: int = (x + r) / m;
    let qy: int = (y + r) / m;
    assert(x == y) by (nonlinear_arith)
        requires
            x + r == m * qx + t,
            y + r == m * qy + t,
            0 <= x < m,
            0 <= y < m,
            0 <= r < m,
            0 <= t < m,
            0 < m;
}

/// Mixing a text of one span is mixing that span.
proof fn lemma_mix_one_span(hash: u64, span: TextSpan)
    ensures
        mix_spans(hash, seq![span]) == mix_span(hash, span),
{
    assert(seq![span].drop_last() =~= Seq::<TextSpan>::empty());
    assert(seq![span].last() == span);
    assert(mix_spans(hash, Seq::<TextSpan>::empty()) == hash);
}

/// The signature is the span count, mixed with the spans before `k`, then
/// span `k`, then the spans after it.
proof fn lemma_signature_split(spans: Seq<TextSpan>, k: int)
    requires
        0 <= k < spans.len(),
    ensures
        signature(spans) == mix_spans(
            mix_span(mix_spans(spans.len() as u64, spans.take(k)), spans[k]),
            spans.skip(k + 1),
        ),
{
    let start = spans.len() as u64;
    let before = spans.take(k);
    let one = seq![spans[k]];
    let after = spans.skip(k + 1);
    assert(spans =~= before + one + after);
    lemma_mix_spans_append(start, before + one, after);
    lemma_mix_spans_append(start, before, one);
    lemma_mix_one_span(mix_spans(start, before), spans[k]);
}

/// Recoloring any one span shows in the signature: two texts that differ
/// only in the color of span `k` get the same signature exactly when the
/// two colors weigh the same (see [`color_weight`]), so never when they
/// differ in one channel only.
pub proof fn lemma_signature_sees_color(a: Seq<TextSpan>, b: Seq<TextSpan>, k: int)
    requires
        a.len() == b.len(),
        0 <= k < a.len(),
        forall|i: int| 0 <= i < a.len() && i != k ==> a[i] == b[i],
        a[k].spec_content() == b[k].spec_content(),
    ensures
        (signature(a) == signature(b)) == (color_weight(a[k].spec_style().spec_color()@)
            == color_weight(b[k].spec_style().spec_color()@)),
        ({
            let ca = a[k].spec_style().spec_color()@;
            let cb = b[k].spec_style().spec_color()@;
            ||| ca.0 != cb.0 && ca.1 == cb.1 && ca.2 == cb.2 && ca.3 == cb.3
            ||| ca.0 == cb.0 && ca.1 != cb.1 && ca.2 == cb.2 && ca.3 == cb.3
            ||| ca.0 == cb.0 && ca.1 == cb.1 && ca.2 != cb.2 && ca.3 == cb.3
            ||| ca.0 == cb.0 && ca.1 == cb.1 && ca.2 == cb.2 && ca.3 != cb.3
        }) ==> signature(a) != signature(b),
{
    lemma_signature_split(a, k);
    lemma_signature_split(b, k);
    assert(b.take(k) =~= a.take(k));
    assert(b.skip(k + 1) =~= a.skip(k + 1));
    let hash = mix_spans(a.len() as u64, a.take(k));
    let bytes = vstd::utf8::encode_utf8(a[k].spec_content());
    let inner = mix_bytes(mix(hash, bytes.len() as u64), bytes);
    let ca = a[k].spec_style().spec_color()@;
    let cb = b[k].spec_style().spec_color()@;
    lemma_mix_color(inner, ca);
    lemma_mix_color(inner, cb);
    assert(mix_span(hash, a[k]) as int == (inner * 923521 + color_weight(ca)) % 0x1_0000_0000_0000_0000int);
    assert(mix_span(hash, b[k]) as int == (inner * 923521 + color_weight(cb)) % 0x1_0000_0000_0000_0000int);
    if signature(a) == signature(b) {
        lemma_mix_spans_injective(mix_span(hash, a[k]), mix_span(hash, b[k]), a.skip(k + 1));
        lemma_mod_cancel(inner * 923521, color_weight(ca), color_weight(cb), 0x1_0000_0000_0000_0000int);
    }
}

proof fn lemma_mix_bytes_append(hash: u64, first: Seq<u8>, second: Seq<u8>)
    ensures
        mix_bytes(hash, first + second) == mix_bytes(mix_bytes(hash, first), second),
    decreases second.len(),
{
    if second.len() == 0 {
        assert(first + second =~= first);
    } else {
        assert((first + second).drop_last() =~= first + second.drop_last());
        lemma_mix_bytes_append(hash, first, second.drop_last());
    }
}

/// Mixing bytes is mixing those before `p`, then byte `p`, then the rest.
proof fn lemma_mix_bytes_split(hash: u64, x: Seq<u8>, p: int)
    requires
        0 <= p < x.len(),
    ensures
        mix_bytes(hash, x) == mix_bytes(mix(mix_bytes(hash, x.take(p)), x[p] as u64), x.skip(p + 1)),
{
    let one = seq![x[p]];
    assert(x =~= x.take(p) + one + x.skip(p + 1));
    lemma_mix_bytes_append(hash, x.take(p) + one, x.skip(p + 1));
    lemma_mix_bytes_append(hash, x.take(p), one);
    assert(one.drop_last() =~= Seq::<u8>::empty());
    assert(one.last() == x[p]);
    assert(mix_bytes(mix_bytes(hash, x.take(p)), Seq::<u8>::empty()) == mix_bytes(hash, x.take(p)));
}

/// Byte sequences of one length that differ in exactly one byte leave
/// different hashes.
proof fn lemma_mix_bytes_one_byte(hash: u64, x: Seq<u8>, y: Seq<u8>, p: int)
    requires
        x.len() == y.len(),
        0 <= p < x.len(),
        x[p] != y[p],
        forall|q: int| 0 <= q < x.len() && q != p ==> x[q] == y[q],
    ensures
        mix_bytes(hash, x) != mix_bytes(hash, y),
{
    lemma_mix_bytes_split(hash, x, p);
    lemma_mix_bytes_split(hash, y, p);
    assert(y.take(p) =~= x.take(p));
    assert(y.skip(p + 1) =~= x.skip(p + 1));
    let h = mix_bytes(hash, x.take(p));
    if mix_bytes(hash, x) == mix_bytes(hash, y) {
        lemma_mix_bytes_injective(mix(h, x[p] as u64), mix(h, y[p] as u64), x.skip(p + 1));
        lemma_mix_value(h, x[p] as u64);
        lemma_mix_value(h, y[p] as u64);
        lemma_mod_cancel(h * 31, x[p] as int, y[p] as int, 0x1_0000_0000_0000_0000int);
    }
}

/// Editing one byte of any span's text shows in the signature: two texts
/// that differ only in span `k`, whose texts have UTF-8 encodings of one
/// length that differ in exactly one byte, get different signatures.
pub proof fn lemma_signature_sees_content(a: Seq<TextSpan>, b: Seq<TextSpan>, k: int, p: int)
    requires
        a.len() == b.len(),
        0 <= k < a.len(),
        forall|i: int| 0 <= i < a.len() && i != k ==> a[i] == b[i],
        a[k].spec_style() == b[k].spec_style(),
        vstd::utf8::encode_utf8(a[k].spec_content()).len() == vstd::utf8::encode_utf8(b[k].spec_content()).len(),
        0 <= p < vstd::utf8::encode_utf8(a[k].spec_content()).len(),
        vstd::utf8::encode_utf8(a[k].spec_content())[p] != vstd::utf8::encode_utf8(b[k].spec_content())[p],
        forall|q: int| 0 <= q < vstd::utf8::encode_utf8(a[k].spec_content()).len() && q != p
            ==> vstd::utf8::encode_utf8(a[k].spec_content())[q] == vstd::utf8::encode_utf8(b[k].spec_content())[q],
    ensures
        signature(a) != signature(b),
{
    lemma_signature_split(a, k);
    lemma_signature_split(b, k);
    assert(b.take(k) =~= a.take(k));
    assert(b.skip(k + 1) =~= a.skip(k + 1));
    let hash = mix_spans(a.len() as u64, a.take(k));
    let xa = vstd::utf8::encode_utf8(a[k].spec_content());
    let xb = vstd::utf8::encode_utf8(b[k].spec_content());
    let start = mix(hash, xa.len() as u64);
    let color = a[k].spec_style().spec_color()@;
    let tail = seq![color.0, color.1, color.2, color.3];
    lemma_mix_bytes_one_byte(start, xa, xb, p);
    if signature(a) == signature(b) {
        lemma_mix_spans_injective(mix_span(hash, a[k]), mix_span(hash, b[k]), a.skip(k + 1));
        lemma_mix_bytes_injective(mix_bytes(start, xa), mix_bytes(start, xb), tail);
    }
}

} // verus!

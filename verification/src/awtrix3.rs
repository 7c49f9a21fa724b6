//! The display's application DTO: one directive telling the matrix display
//! what to show. Every field but the text is optional, and an unset field
//! is omitted entirely from the wire encoding — never sent as a null.
use vstd::prelude::*;

use crate::json::{enc_int, enc_str, match_lit, push_int, push_str_bytes};
use crate::topic::{DecodeError, Encode};
use vstd::string::StringSliceAdditionalSpecFns;
use vstd::utf8::encode_utf8;

verus! {

/// A custom-application directive for the matrix display.
#[derive(PartialEq, Debug)]
pub struct CustomApplication {
    pub text: String,
    pub text_case: Option<i32>,
    pub top_text: Option<bool>,
    pub text_offset: Option<i32>,
    pub center: Option<bool>,
    pub color: Option<String>,
    pub gradient: Option<String>,
    pub blink_text: Option<i32>,
    pub fade_text: Option<i32>,
    pub background: Option<String>,
    pub rainbow: Option<bool>,
    pub icon: Option<String>,
    pub push_icon: Option<i32>,
    pub repeat: Option<i32>,
    pub duration: Option<i32>,
    pub life_time: Option<i32>,
}

impl Default for CustomApplication {
    /// Empty text and nothing else set.
    fn default() -> (d: CustomApplication)
        ensures
            d.text@ == Seq::<char>::empty(),
            d == (CustomApplication {
                text: d.text,
                text_case: Option::None,
                top_text: Option::None,
                text_offset: Option::None,
                center: Option::None,
                color: Option::None,
                gradient: Option::None,
                blink_text: Option::None,
                background: Option::None,
                fade_text: Option::None,
                rainbow: Option::None,
                icon: Option::None,
                push_icon: Option::None,
                repeat: Option::None,
                duration: Option::None,
                life_time: Option::None,
            }),
    {
        CustomApplication {
            text: String::new(),
            text_case: Option::None,
            top_text: Option::None,
            text_offset: Option::None,
            center: Option::None,
            color: Option::None,
            gradient: Option::None,
            blink_text: Option::None,
            fade_text: Option::None,
            background: Option::None,
            rainbow: Option::None,
            icon: Option::None,
            push_icon: Option::None,
            repeat: Option::None,
            duration: Option::None,
            life_time: Option::None,
        }
    }
}

/// An optional integer field: nothing when unset, else
/// `,"<key>":<value>`.
pub open spec fn field_i32(key: Seq<u8>, v: Option<i32>) -> Seq<u8> {
    match v {
        Option::None => Seq::empty(),
        Some(x) => seq![44u8, 34u8] + key + seq![34u8, 58u8] + enc_int(x as int),
    }
}

/// An optional boolean field: nothing when unset, else
/// `,"<key>":true` or `,"<key>":false`.
pub open spec fn field_bool(key: Seq<u8>, v: Option<bool>) -> Seq<u8> {
    match v {
        Option::None => Seq::empty(),
        Some(true) => seq![44u8, 34u8] + key + seq![34u8, 58u8] + seq![116u8, 114u8, 117u8, 101u8],
        Some(false) => seq![44u8, 34u8] + key + seq![34u8, 58u8] + seq![
            102u8,
            97u8,
            108u8,
            115u8,
            101u8,
        ],
    }
}

/// An optional string field: nothing when unset, else
/// `,"<key>":"<escaped>"`.
pub open spec fn field_str(key: Seq<u8>, v: Option<Seq<char>>) -> Seq<u8> {
    match v {
        Option::None => Seq::empty(),
        Some(s) => seq![44u8, 34u8] + key + seq![34u8, 58u8] + enc_str(encode_utf8(s)),
    }
}

/// The bytes of `textCase`.
pub open spec fn key_text_case() -> Seq<u8> {
    seq![116u8, 101u8, 120u8, 116u8, 67u8, 97u8, 115u8, 101u8]
}

fn key_text_case_v() -> (r: Vec<u8>)
    ensures
        r@ == key_text_case(),
{
    let r: Vec<u8> = vec![116u8, 101u8, 120u8, 116u8, 67u8, 97u8, 115u8, 101u8];
    proof {
        assert(r@ =~= key_text_case());
    }
    r
}

/// The bytes of `topText`.
pub open spec fn key_top_text() -> Seq<u8> {
    seq![116u8, 111u8, 112u8, 84u8, 101u8, 120u8, 116u8]
}

fn key_top_text_v() -> (r: Vec<u8>)
    ensures
        r@ == key_top_text(),
{
    let r: Vec<u8> = vec![116u8, 111u8, 112u8, 84u8, 101u8, 120u8, 116u8];
    proof {
        assert(r@ =~= key_top_text());
    }
    r
}

/// The bytes of `textOffset`.
pub open spec fn key_text_offset() -> Seq<u8> {
    seq![116u8, 101u8, 120u8, 116u8, 79u8, 102u8, 102u8, 115u8, 101u8, 116u8]
}

fn key_text_offset_v() -> (r: Vec<u8>)
    ensures
        r@ == key_text_offset(),
{
    let r: Vec<u8> = vec![116u8, 101u8, 120u8, 116u8, 79u8, 102u8, 102u8, 115u8, 101u8, 116u8];
    proof {
        assert(r@ =~= key_text_offset());
    }
    r
}

/// The bytes of `center`.
pub open spec fn key_center() -> Seq<u8> {
    seq![99u8, 101u8, 110u8, 116u8, 101u8, 114u8]
}

fn key_center_v() -> (r: Vec<u8>)
    ensures
        r@ == key_center(),
{
    let r: Vec<u8> = vec![99u8, 101u8, 110u8, 116u8, 101u8, 114u8];
    proof {
        assert(r@ =~= key_center());
    }
    r
}

/// The bytes of `color`.
pub open spec fn key_color() -> Seq<u8> {
    seq![99u8, 111u8, 108u8, 111u8, 114u8]
}

fn key_color_v() -> (r: Vec<u8>)
    ensures
        r@ == key_color(),
{
    let r: Vec<u8> = vec![99u8, 111u8, 108u8, 111u8, 114u8];
    proof {
        assert(r@ =~= key_color());
    }
    r
}

/// The bytes of `gradient`.
pub open spec fn key_gradient() -> Seq<u8> {
    seq![103u8, 114u8, 97u8, 100u8, 105u8, 101u8, 110u8, 116u8]
}

fn key_gradient_v() -> (r: Vec<u8>)
    ensures
        r@ == key_gradient(),
{
    let r: Vec<u8> = vec![103u8, 114u8, 97u8, 100u8, 105u8, 101u8, 110u8, 116u8];
    proof {
        assert(r@ =~= key_gradient());
    }
    r
}

/// The bytes of `blinkText`.
pub open spec fn key_blink_text() -> Seq<u8> {
    seq![98u8, 108u8, 105u8, 110u8, 107u8, 84u8, 101u8, 120u8, 116u8]
}

fn key_blink_text_v() -> (r: Vec<u8>)
    ensures
        r@ == key_blink_text(),
{
    let r: Vec<u8> = vec![98u8, 108u8, 105u8, 110u8, 107u8, 84u8, 101u8, 120u8, 116u8];
    proof {
        assert(r@ =~= key_blink_text());
    }
    r
}

/// The bytes of `fadeText`.
pub open spec fn key_fade_text() -> Seq<u8> {
    seq![102u8, 97u8, 100u8, 101u8, 84u8, 101u8, 120u8, 116u8]
}

fn key_fade_text_v() -> (r: Vec<u8>)
    ensures
        r@ == key_fade_text(),
{
    let r: Vec<u8> = vec![102u8, 97u8, 100u8, 101u8, 84u8, 101u8, 120u8, 116u8];
    proof {
        assert(r@ =~= key_fade_text());
    }
    r
}

/// The bytes of `background`.
pub open spec fn key_background() -> Seq<u8> {
    seq![98u8, 97u8, 99u8, 107u8, 103u8, 114u8, 111u8, 117u8, 110u8, 100u8]
}

fn key_background_v() -> (r: Vec<u8>)
    ensures
        r@ == key_background(),
{
    let r: Vec<u8> = vec![98u8, 97u8, 99u8, 107u8, 103u8, 114u8, 111u8, 117u8, 110u8, 100u8];
    proof {
        assert(r@ =~= key_background());
    }
    r
}

/// The bytes of `rainbow`.
pub open spec fn key_rainbow() -> Seq<u8> {
    seq![114u8, 97u8, 105u8, 110u8, 98u8, 111u8, 119u8]
}

fn key_rainbow_v() -> (r: Vec<u8>)
    ensures
        r@ == key_rainbow(),
{
    let r: Vec<u8> = vec![114u8, 97u8, 105u8, 110u8, 98u8, 111u8, 119u8];
    proof {
        assert(r@ =~= key_rainbow());
    }
    r
}

/// The bytes of `icon`.
pub open spec fn key_icon() -> Seq<u8> {
    seq![105u8, 99u8, 111u8, 110u8]
}

fn key_icon_v() -> (r: Vec<u8>)
    ensures
        r@ == key_icon(),
{
    let r: Vec<u8> = vec![105u8, 99u8, 111u8, 110u8];
    proof {
        assert(r@ =~= key_icon());
    }
    r
}

/// The bytes of `pushIcon`.
pub open spec fn key_push_icon() -> Seq<u8> {
    seq![112u8, 117u8, 115u8, 104u8, 73u8, 99u8, 111u8, 110u8]
}

fn key_push_icon_v() -> (r: Vec<u8>)
    ensures
        r@ == key_push_icon(),
{
    let r: Vec<u8> = vec![112u8, 117u8, 115u8, 104u8, 73u8, 99u8, 111u8, 110u8];
    proof {
        assert(r@ =~= key_push_icon());
    }
    r
}

/// The bytes of `repeat`.
pub open spec fn key_repeat() -> Seq<u8> {
    seq![114u8, 101u8, 112u8, 101u8, 97u8, 116u8]
}

fn key_repeat_v() -> (r: Vec<u8>)
    ensures
        r@ == key_repeat(),
{
    let r: Vec<u8> = vec![114u8, 101u8, 112u8, 101u8, 97u8, 116u8];
    proof {
        assert(r@ =~= key_repeat());
    }
    r
}

/// The bytes of `duration`.
pub open spec fn key_duration() -> Seq<u8> {
    seq![100u8, 117u8, 114u8, 97u8, 116u8, 105u8, 111u8, 110u8]
}

fn key_duration_v() -> (r: Vec<u8>)
    ensures
        r@ == key_duration(),
{
    let r: Vec<u8> = vec![100u8, 117u8, 114u8, 97u8, 116u8, 105u8, 111u8, 110u8];
    proof {
        assert(r@ =~= key_duration());
    }
    r
}

/// The bytes of `lifeTime`.
pub open spec fn key_life_time() -> Seq<u8> {
    seq![108u8, 105u8, 102u8, 101u8, 84u8, 105u8, 109u8, 101u8]
}

fn key_life_time_v() -> (r: Vec<u8>)
    ensures
        r@ == key_life_time(),
{
    let r: Vec<u8> = vec![108u8, 105u8, 102u8, 101u8, 84u8, 105u8, 109u8, 101u8];
    proof {
        assert(r@ =~= key_life_time());
    }
    r
}

/// The bytes of `{"text":`.
pub open spec fn ca_open() -> Seq<u8> {
    seq![123u8, 34u8, 116u8, 101u8, 120u8, 116u8, 34u8, 58u8]
}

fn ca_open_v() -> (r: Vec<u8>)
    ensures
        r@ == ca_open(),
{
    let r: Vec<u8> = vec![123u8, 34u8, 116u8, 101u8, 120u8, 116u8, 34u8, 58u8];
    proof {
        assert(r@ =~= ca_open());
    }
    r
}


/// The encodings of one run of optional fields, in declaration order.
pub open spec fn ca_fields_a(ca: &CustomApplication) -> Seq<u8> {
    field_i32(key_text_case(), ca.text_case) + field_bool(key_top_text(), ca.top_text) + field_i32(key_text_offset(), ca.text_offset) + field_bool(key_center(), ca.center)
}

/// The encodings of one run of optional fields, in declaration order.
pub open spec fn ca_fields_b(ca: &CustomApplication) -> Seq<u8> {
    field_str(key_color(), ca.color.deep_view()) + field_str(key_gradient(), ca.gradient.deep_view()) + field_i32(key_blink_text(), ca.blink_text) + field_i32(key_fade_text(), ca.fade_text)
}

/// The encodings of one run of optional fields, in declaration order.
pub open spec fn ca_fields_c(ca: &CustomApplication) -> Seq<u8> {
    field_str(key_background(), ca.background.deep_view()) + field_bool(key_rainbow(), ca.rainbow) + field_str(key_icon(), ca.icon.deep_view()) + field_i32(key_push_icon(), ca.push_icon)
}

/// The encodings of one run of optional fields, in declaration order.
pub open spec fn ca_fields_d(ca: &CustomApplication) -> Seq<u8> {
    field_i32(key_repeat(), ca.repeat) + field_i32(key_duration(), ca.duration) + field_i32(key_life_time(), ca.life_time)
}

impl Encode for CustomApplication {
    /// Every directive is representable.
    open spec fn wf(&self) -> bool {
        true
    }

    /// `{"text":"…"}` with each set optional field appended in
    /// declaration order; unset fields leave no trace (sparse encoding).
    open spec fn spec_encode(&self) -> Seq<u8> {
        ca_open() + enc_str(encode_utf8(self.text@)) + ca_fields_a(self) + ca_fields_b(self)
            + ca_fields_c(self) + ca_fields_d(self) + seq![125u8]
    }

    fn encode(message: &Self) -> (r: Vec<u8>) {
        let mut out = ca_open_v();
        let ts = message.text.as_str();
        push_str_bytes(&mut out, ts.as_bytes());
        proof {
            broadcast use vstd::string::group_string_axioms;

            assert(ts.spec_bytes() == encode_utf8(message.text@));
            assert(out@ == ca_open() + enc_str(encode_utf8(message.text@)));
        }
        push_fields_a(&mut out, message);
        push_fields_b(&mut out, message);
        push_fields_c(&mut out, message);
        push_fields_d(&mut out, message);
        out.push(125u8);
        proof {
            assert(out@ == message.spec_encode());
        }
        out
    }
}



fn push_fields_a(out: &mut Vec<u8>, message: &CustomApplication)
    ensures
        final(out)@ == old(out)@ + ca_fields_a(message),
{
    let k_text_case = key_text_case_v();
    push_field_i32(out, &k_text_case, &message.text_case);
    let k_top_text = key_top_text_v();
    push_field_bool(out, &k_top_text, &message.top_text);
    let k_text_offset = key_text_offset_v();
    push_field_i32(out, &k_text_offset, &message.text_offset);
    let k_center = key_center_v();
    push_field_bool(out, &k_center, &message.center);
    proof {
        assert(out@ =~= old(out)@ + (field_i32(key_text_case(), message.text_case) + field_bool(key_top_text(), message.top_text) + field_i32(key_text_offset(), message.text_offset) + field_bool(key_center(), message.center)));
    }
}

fn push_fields_b(out: &mut Vec<u8>, message: &CustomApplication)
    ensures
        final(out)@ == old(out)@ + ca_fields_b(message),
{
    let k_color = key_color_v();
    push_field_str(out, &k_color, &message.color);
    let k_gradient = key_gradient_v();
    push_field_str(out, &k_gradient, &message.gradient);
    let k_blink_text = key_blink_text_v();
    push_field_i32(out, &k_blink_text, &message.blink_text);
    let k_fade_text = key_fade_text_v();
    push_field_i32(out, &k_fade_text, &message.fade_text);
    proof {
        assert(out@ =~= old(out)@ + (field_str(key_color(), message.color.deep_view()) + field_str(key_gradient(), message.gradient.deep_view()) + field_i32(key_blink_text(), message.blink_text) + field_i32(key_fade_text(), message.fade_text)));
    }
}

fn push_fields_c(out: &mut Vec<u8>, message: &CustomApplication)
    ensures
        final(out)@ == old(out)@ + ca_fields_c(message),
{
    let k_background = key_background_v();
    push_field_str(out, &k_background, &message.background);
    let k_rainbow = key_rainbow_v();
    push_field_bool(out, &k_rainbow, &message.rainbow);
    let k_icon = key_icon_v();
    push_field_str(out, &k_icon, &message.icon);
    let k_push_icon = key_push_icon_v();
    push_field_i32(out, &k_push_icon, &message.push_icon);
    proof {
        assert(out@ =~= old(out)@ + (field_str(key_background(), message.background.deep_view()) + field_bool(key_rainbow(), message.rainbow) + field_str(key_icon(), message.icon.deep_view()) + field_i32(key_push_icon(), message.push_icon)));
    }
}

fn push_fields_d(out: &mut Vec<u8>, message: &CustomApplication)
    ensures
        final(out)@ == old(out)@ + ca_fields_d(message),
{
    let k_repeat = key_repeat_v();
    push_field_i32(out, &k_repeat, &message.repeat);
    let k_duration = key_duration_v();
    push_field_i32(out, &k_duration, &message.duration);
    let k_life_time = key_life_time_v();
    push_field_i32(out, &k_life_time, &message.life_time);
    proof {
        assert(out@ =~= old(out)@ + (field_i32(key_repeat(), message.repeat) + field_i32(key_duration(), message.duration) + field_i32(key_life_time(), message.life_time)));
    }
}

/// Appends an optional integer field's encoding (nothing when unset).
fn push_field_i32(out: &mut Vec<u8>, key: &Vec<u8>, v: &Option<i32>)
    ensures
        final(out)@ == old(out)@ + field_i32(key@, *v),
{
    match v {
        Some(x) => {
            push_opt_i32(out, key, *x);
        },
        Option::None => {
            proof {
                assert(out@ =~= out@ + field_i32(key@, Option::None));
            }
        },
    }
}

/// Appends an optional boolean field's encoding (nothing when unset).
fn push_field_bool(out: &mut Vec<u8>, key: &Vec<u8>, v: &Option<bool>)
    ensures
        final(out)@ == old(out)@ + field_bool(key@, *v),
{
    match v {
        Some(x) => {
            push_opt_bool(out, key, *x);
        },
        Option::None => {
            proof {
                assert(out@ =~= out@ + field_bool(key@, Option::None));
            }
        },
    }
}

/// Appends an optional string field's encoding (nothing when unset).
fn push_field_str(out: &mut Vec<u8>, key: &Vec<u8>, v: &Option<String>)
    ensures
        final(out)@ == old(out)@ + field_str(key@, v.deep_view()),
{
    match v {
        Some(x) => {
            push_opt_str(out, key, x.as_str());
        },
        Option::None => {
            proof {
                assert(out@ =~= out@ + field_str(key@, Option::None));
            }
        },
    }
}

/// Appends `,"<key>":<value>` for a set integer field.
fn push_opt_i32(out: &mut Vec<u8>, key: &Vec<u8>, x: i32)
    ensures
        final(out)@ == old(out)@ + field_i32(key@, Some(x)),
{
    out.push(44);
    out.push(34);
    push_all(out, key);
    out.push(34);
    out.push(58);
    push_int(out, x as i64);
    proof {
        assert(out@ =~= old(out)@ + field_i32(key@, Some(x)));
    }
}

/// Appends `,"<key>":true` or `,"<key>":false` for a set boolean field.
fn push_opt_bool(out: &mut Vec<u8>, key: &Vec<u8>, x: bool)
    ensures
        final(out)@ == old(out)@ + field_bool(key@, Some(x)),
{
    out.push(44);
    out.push(34);
    push_all(out, key);
    out.push(34);
    out.push(58);
    if x {
        out.push(116);
        out.push(114);
        out.push(117);
        out.push(101);
    } else {
        out.push(102);
        out.push(97);
        out.push(108);
        out.push(115);
        out.push(101);
    }
    proof {
        assert(out@ =~= old(out)@ + field_bool(key@, Some(x)));
    }
}

/// Appends `,"<key>":"<escaped>"` for a set string field.
fn push_opt_str(out: &mut Vec<u8>, key: &Vec<u8>, x: &str)
    ensures
        final(out)@ == old(out)@ + field_str(key@, Some(x@)),
{
    out.push(44);
    out.push(34);
    push_all(out, key);
    out.push(34);
    out.push(58);
    push_str_bytes(out, x.as_bytes());
    proof {
        broadcast use vstd::string::group_string_axioms;

        assert(x.spec_bytes() == encode_utf8(x@));
        assert(out@ =~= old(out)@ + field_str(key@, Some(x@)));
    }
}

/// Appends every byte of `src`.
fn push_all(out: &mut Vec<u8>, src: &Vec<u8>)
    ensures
        final(out)@ == old(out)@ + src@,
{
    let mut i: usize = 0;
    while i < src.len()
        invariant
            0 <= i <= src@.len(),
            out@ == old(out)@ + src@.subrange(0, i as int),
        decreases src@.len() - i,
    {
        out.push(src[i]);
        proof {
            assert(out@ =~= old(out)@ + src@.subrange(0, i + 1));
        }
        i += 1;
    }
    proof {
        assert(src@.subrange(0, src@.len() as int) =~= src@);
    }
}


/// The wire bytes of `true` or `false`.
pub open spec fn bool_bytes(b: bool) -> Seq<u8> {
    if b {
        seq![116u8, 114u8, 117u8, 101u8]
    } else {
        seq![102u8, 97u8, 108u8, 115u8, 101u8]
    }
}

/// The key of the optional field at declaration position `i`.
pub open spec fn ca_key(i: int) -> Seq<u8> {
    if i == 0 {
        key_text_case()
    } else if i == 1 {
        key_top_text()
    } else if i == 2 {
        key_text_offset()
    } else if i == 3 {
        key_center()
    } else if i == 4 {
        key_color()
    } else if i == 5 {
        key_gradient()
    } else if i == 6 {
        key_blink_text()
    } else if i == 7 {
        key_fade_text()
    } else if i == 8 {
        key_background()
    } else if i == 9 {
        key_rainbow()
    } else if i == 10 {
        key_icon()
    } else if i == 11 {
        key_push_icon()
    } else if i == 12 {
        key_repeat()
    } else if i == 13 {
        key_duration()
    } else {
        key_life_time()
    }
}

/// Whether the optional field at position `i` is set.
pub open spec fn ca_set(y: &CustomApplication, i: int) -> bool {
    if i == 0 {
        y.text_case is Some
    } else if i == 1 {
        y.top_text is Some
    } else if i == 2 {
        y.text_offset is Some
    } else if i == 3 {
        y.center is Some
    } else if i == 4 {
        y.color is Some
    } else if i == 5 {
        y.gradient is Some
    } else if i == 6 {
        y.blink_text is Some
    } else if i == 7 {
        y.fade_text is Some
    } else if i == 8 {
        y.background is Some
    } else if i == 9 {
        y.rainbow is Some
    } else if i == 10 {
        y.icon is Some
    } else if i == 11 {
        y.push_icon is Some
    } else if i == 12 {
        y.repeat is Some
    } else if i == 13 {
        y.duration is Some
    } else {
        y.life_time is Some
    }
}

/// The value bytes of the set optional field at position `i`.
pub open spec fn ca_val(y: &CustomApplication, i: int) -> Seq<u8> {
    if i == 0 {
        enc_int(y.text_case->Some_0 as int)
    } else if i == 1 {
        bool_bytes(y.top_text->Some_0)
    } else if i == 2 {
        enc_int(y.text_offset->Some_0 as int)
    } else if i == 3 {
        bool_bytes(y.center->Some_0)
    } else if i == 4 {
        enc_str(encode_utf8(y.color->Some_0@))
    } else if i == 5 {
        enc_str(encode_utf8(y.gradient->Some_0@))
    } else if i == 6 {
        enc_int(y.blink_text->Some_0 as int)
    } else if i == 7 {
        enc_int(y.fade_text->Some_0 as int)
    } else if i == 8 {
        enc_str(encode_utf8(y.background->Some_0@))
    } else if i == 9 {
        bool_bytes(y.rainbow->Some_0)
    } else if i == 10 {
        enc_str(encode_utf8(y.icon->Some_0@))
    } else if i == 11 {
        enc_int(y.push_icon->Some_0 as int)
    } else if i == 12 {
        enc_int(y.repeat->Some_0 as int)
    } else if i == 13 {
        enc_int(y.duration->Some_0 as int)
    } else {
        enc_int(y.life_time->Some_0 as int)
    }
}

/// Whether the two directives agree (up to string identity) on the
/// optional field at position `i`.
pub open spec fn ca_field_eq(a: &CustomApplication, b: &CustomApplication, i: int) -> bool {
    if i == 0 {
        a.text_case == b.text_case
    } else if i == 1 {
        a.top_text == b.top_text
    } else if i == 2 {
        a.text_offset == b.text_offset
    } else if i == 3 {
        a.center == b.center
    } else if i == 4 {
        a.color.deep_view() == b.color.deep_view()
    } else if i == 5 {
        a.gradient.deep_view() == b.gradient.deep_view()
    } else if i == 6 {
        a.blink_text == b.blink_text
    } else if i == 7 {
        a.fade_text == b.fade_text
    } else if i == 8 {
        a.background.deep_view() == b.background.deep_view()
    } else if i == 9 {
        a.rainbow == b.rainbow
    } else if i == 10 {
        a.icon.deep_view() == b.icon.deep_view()
    } else if i == 11 {
        a.push_icon == b.push_icon
    } else if i == 12 {
        a.repeat == b.repeat
    } else if i == 13 {
        a.duration == b.duration
    } else {
        a.life_time == b.life_time
    }
}

/// The encoding of the optional field at position `i`: nothing when
/// unset.
pub open spec fn ca_field_at(y: &CustomApplication, i: int) -> Seq<u8> {
    if ca_set(y, i) {
        seq![44u8, 34u8] + ca_key(i) + seq![34u8, 58u8] + ca_val(y, i)
    } else {
        Seq::empty()
    }
}

/// The encoding from the optional field at position `i` to the closing
/// brace.
pub open spec fn ca_tail(y: &CustomApplication, i: int) -> Seq<u8>
    decreases 15 - i,
{
    if i < 0 || i >= 15 {
        seq![125u8]
    } else {
        ca_field_at(y, i) + ca_tail(y, i + 1)
    }
}

/// The two directives agree on every optional field from position `i` on.
pub open spec fn ca_fields_eq_from(a: &CustomApplication, b: &CustomApplication, i: int) -> bool {
    forall|j: int| i <= j < 15 ==> ca_field_eq(a, b, j)
}


/// Every key is at least one byte and holds no quote byte.
proof fn lemma_key_no_quote(i: int)
    requires
        0 <= i < 15,
    ensures
        ca_key(i).len() >= 4,
        forall|t: int| 0 <= t < ca_key(i).len() ==> ca_key(i)[t] != 34,
{
    assert forall|t: int| 0 <= t < ca_key(0).len() implies ca_key(0)[t] != 34 by {}
    assert forall|t: int| 0 <= t < ca_key(1).len() implies ca_key(1)[t] != 34 by {}
    assert forall|t: int| 0 <= t < ca_key(2).len() implies ca_key(2)[t] != 34 by {}
    assert forall|t: int| 0 <= t < ca_key(3).len() implies ca_key(3)[t] != 34 by {}
    assert forall|t: int| 0 <= t < ca_key(4).len() implies ca_key(4)[t] != 34 by {}
    assert forall|t: int| 0 <= t < ca_key(5).len() implies ca_key(5)[t] != 34 by {}
    assert forall|t: int| 0 <= t < ca_key(6).len() implies ca_key(6)[t] != 34 by {}
    assert forall|t: int| 0 <= t < ca_key(7).len() implies ca_key(7)[t] != 34 by {}
    assert forall|t: int| 0 <= t < ca_key(8).len() implies ca_key(8)[t] != 34 by {}
    assert forall|t: int| 0 <= t < ca_key(9).len() implies ca_key(9)[t] != 34 by {}
    assert forall|t: int| 0 <= t < ca_key(10).len() implies ca_key(10)[t] != 34 by {}
    assert forall|t: int| 0 <= t < ca_key(11).len() implies ca_key(11)[t] != 34 by {}
    assert forall|t: int| 0 <= t < ca_key(12).len() implies ca_key(12)[t] != 34 by {}
    assert forall|t: int| 0 <= t < ca_key(13).len() implies ca_key(13)[t] != 34 by {}
    assert forall|t: int| 0 <= t < ca_key(14).len() implies ca_key(14)[t] != 34 by {}
}

/// Distinct positions carry distinct keys.
proof fn lemma_key_inj(i: int, m: int)
    requires
        0 <= i < 15,
        0 <= m < 15,
        ca_key(i) == ca_key(m),
    ensures
        i == m,
{
    assert(ca_key(0).len() == 8 && ca_key(0)[0] == 116);
    assert(ca_key(1).len() == 7 && ca_key(1)[0] == 116);
    assert(ca_key(2).len() == 10 && ca_key(2)[0] == 116);
    assert(ca_key(3).len() == 6 && ca_key(3)[0] == 99);
    assert(ca_key(4).len() == 5 && ca_key(4)[0] == 99);
    assert(ca_key(5).len() == 8 && ca_key(5)[0] == 103);
    assert(ca_key(6).len() == 9 && ca_key(6)[0] == 98);
    assert(ca_key(7).len() == 8 && ca_key(7)[0] == 102);
    assert(ca_key(8).len() == 10 && ca_key(8)[0] == 98);
    assert(ca_key(9).len() == 7 && ca_key(9)[0] == 114);
    assert(ca_key(10).len() == 4 && ca_key(10)[0] == 105);
    assert(ca_key(11).len() == 8 && ca_key(11)[0] == 112);
    assert(ca_key(12).len() == 6 && ca_key(12)[0] == 114);
    assert(ca_key(13).len() == 8 && ca_key(13)[0] == 100);
    assert(ca_key(14).len() == 8 && ca_key(14)[0] == 108);
    assert(i == m);
}

/// A key followed by `":` and a remainder reads back unambiguously.
proof fn lemma_key_prefix(i: int, m: int, r1: Seq<u8>, r2: Seq<u8>)
    requires
        0 <= i < 15,
        0 <= m < 15,
        ca_key(i) + seq![34u8, 58u8] + r1 == ca_key(m) + seq![34u8, 58u8] + r2,
    ensures
        i == m,
        r1 == r2,
{
    lemma_key_no_quote(i);
    lemma_key_no_quote(m);
    let s = ca_key(i) + seq![34u8, 58u8] + r1;
    let ki = ca_key(i);
    let km = ca_key(m);
    if ki.len() < km.len() {
        assert(s[ki.len() as int] == ((ki + seq![34u8, 58u8]) + r1)[ki.len() as int]);
        assert(s[ki.len() as int] == 34);
        assert(s[ki.len() as int] == ((km + seq![34u8, 58u8]) + r2)[ki.len() as int]);
        assert(s[ki.len() as int] == km[ki.len() as int]);
        assert(false);
    } else if km.len() < ki.len() {
        assert(s[km.len() as int] == ((km + seq![34u8, 58u8]) + r2)[km.len() as int]);
        assert(s[km.len() as int] == 34);
        assert(s[km.len() as int] == ((ki + seq![34u8, 58u8]) + r1)[km.len() as int]);
        assert(s[km.len() as int] == ki[km.len() as int]);
        assert(false);
    } else {
        assert(ki =~= km) by {
            assert forall|t: int| 0 <= t < ki.len() implies ki[t] == km[t] by {
                assert(s[t] == ((ki + seq![34u8, 58u8]) + r1)[t]);
                assert(s[t] == ((km + seq![34u8, 58u8]) + r2)[t]);
            }
        }
        lemma_key_inj(i, m);
        assert(r1 =~= r2) by {
            assert(r1.len() == r2.len()) by {
                assert((ki + seq![34u8, 58u8] + r1).len() == (km + seq![34u8, 58u8] + r2).len());
            }
            assert forall|t: int| 0 <= t < r1.len() implies r1[t] == r2[t] by {
                assert(s[ki.len() + 2 + t] == ((ki + seq![34u8, 58u8]) + r1)[ki.len() + 2 + t]);
                assert(s[km.len() + 2 + t] == ((km + seq![34u8, 58u8]) + r2)[km.len() + 2 + t]);
            }
        }
    }
}

/// The whole encoding is the fixed opening, the text string and the field
/// tail.
proof fn lemma_field_bridge(y: &CustomApplication, i: int)
    requires
        0 <= i < 15,
    ensures
        i == 0 ==> ca_field_at(y, i) == field_i32(key_text_case(), y.text_case),
        i == 1 ==> ca_field_at(y, i) == field_bool(key_top_text(), y.top_text),
        i == 2 ==> ca_field_at(y, i) == field_i32(key_text_offset(), y.text_offset),
        i == 3 ==> ca_field_at(y, i) == field_bool(key_center(), y.center),
        i == 4 ==> ca_field_at(y, i) == field_str(key_color(), y.color.deep_view()),
        i == 5 ==> ca_field_at(y, i) == field_str(key_gradient(), y.gradient.deep_view()),
        i == 6 ==> ca_field_at(y, i) == field_i32(key_blink_text(), y.blink_text),
        i == 7 ==> ca_field_at(y, i) == field_i32(key_fade_text(), y.fade_text),
        i == 8 ==> ca_field_at(y, i) == field_str(key_background(), y.background.deep_view()),
        i == 9 ==> ca_field_at(y, i) == field_bool(key_rainbow(), y.rainbow),
        i == 10 ==> ca_field_at(y, i) == field_str(key_icon(), y.icon.deep_view()),
        i == 11 ==> ca_field_at(y, i) == field_i32(key_push_icon(), y.push_icon),
        i == 12 ==> ca_field_at(y, i) == field_i32(key_repeat(), y.repeat),
        i == 13 ==> ca_field_at(y, i) == field_i32(key_duration(), y.duration),
        i == 14 ==> ca_field_at(y, i) == field_i32(key_life_time(), y.life_time),
{
}

proof fn lemma_group_a(y: &CustomApplication)
    ensures
        ca_tail(y, 0) == ca_fields_a(y) + ca_tail(y, 4),
{
    reveal_with_fuel(ca_tail, 5);
    lemma_field_bridge(y, 0);
    lemma_field_bridge(y, 1);
    lemma_field_bridge(y, 2);
    lemma_field_bridge(y, 3);
    assert(ca_tail(y, 0) =~= ca_fields_a(y) + ca_tail(y, 4));
}

proof fn lemma_group_b(y: &CustomApplication)
    ensures
        ca_tail(y, 4) == ca_fields_b(y) + ca_tail(y, 8),
{
    reveal_with_fuel(ca_tail, 5);
    lemma_field_bridge(y, 4);
    lemma_field_bridge(y, 5);
    lemma_field_bridge(y, 6);
    lemma_field_bridge(y, 7);
    assert(ca_tail(y, 4) =~= ca_fields_b(y) + ca_tail(y, 8));
}

proof fn lemma_group_c(y: &CustomApplication)
    ensures
        ca_tail(y, 8) == ca_fields_c(y) + ca_tail(y, 12),
{
    reveal_with_fuel(ca_tail, 5);
    lemma_field_bridge(y, 8);
    lemma_field_bridge(y, 9);
    lemma_field_bridge(y, 10);
    lemma_field_bridge(y, 11);
    assert(ca_tail(y, 8) =~= ca_fields_c(y) + ca_tail(y, 12));
}

proof fn lemma_group_d(y: &CustomApplication)
    ensures
        ca_tail(y, 12) == ca_fields_d(y) + seq![125u8],
{
    reveal_with_fuel(ca_tail, 5);
    lemma_field_bridge(y, 12);
    lemma_field_bridge(y, 13);
    lemma_field_bridge(y, 14);
    assert(ca_tail(y, 12) =~= ca_fields_d(y) + seq![125u8]);
}

proof fn lemma_encode_tail(y: &CustomApplication)
    ensures
        y.spec_encode() == ca_open() + enc_str(encode_utf8(y.text@)) + ca_tail(y, 0),
{
    lemma_group_a(y);
    lemma_group_b(y);
    lemma_group_c(y);
    lemma_group_d(y);
    assert(y.spec_encode() =~= ca_open() + enc_str(encode_utf8(y.text@)) + ca_tail(y, 0));
}

/// A field tail is never empty and starts with a comma or the closing
/// brace; a brace means every remaining field is unset.
proof fn lemma_tail_first(y: &CustomApplication, i: int)
    requires
        0 <= i <= 15,
    ensures
        ca_tail(y, i).len() >= 1,
        ca_tail(y, i)[0] == 44 || ca_tail(y, i)[0] == 125,
        ca_tail(y, i)[0] == 125 ==> ca_tail(y, i) == seq![125u8] && (forall|j: int|
            i <= j < 15 ==> !ca_set(y, j)),
    decreases 15 - i,
{
    if i >= 15 {
    } else {
        lemma_tail_first(y, i + 1);
        if ca_set(y, i) {
            lemma_key_no_quote(i);
            assert(ca_tail(y, i)[0] == ca_field_at(y, i)[0]);
            assert(ca_field_at(y, i)[0] == 44);
        } else {
            assert(ca_tail(y, i) =~= ca_tail(y, i + 1));
            if ca_tail(y, i)[0] == 125 {
                assert forall|j: int| i <= j < 15 implies !ca_set(y, j) by {
                    if j > i {
                        assert(!ca_set(y, j));
                    }
                }
            }
        }
    }
}

/// A field tail that starts with a comma is the tail at its first set
/// field, everything before it being unset.
proof fn lemma_tail_shape(y: &CustomApplication, i: int)
    requires
        0 <= i <= 15,
        ca_tail(y, i)[0] == 44,
    ensures
        exists|m: int|
            #![trigger ca_tail(y, m)]
            i <= m < 15 && ca_set(y, m) && (forall|j: int| i <= j < m ==> !ca_set(y, j))
                && ca_tail(y, i) == ca_tail(y, m),
    decreases 15 - i,
{
    lemma_tail_first(y, i);
    assert(i < 15);
    if ca_set(y, i) {
        assert(i <= i < 15 && ca_set(y, i) && (forall|j: int| i <= j < i ==> !ca_set(y, j))
            && ca_tail(y, i) == ca_tail(y, i));
    } else {
        assert(ca_tail(y, i) =~= ca_tail(y, i + 1));
        lemma_tail_shape(y, i + 1);
        let m = choose|m: int|
            #![trigger ca_tail(y, m)]
            i + 1 <= m < 15 && ca_set(y, m) && (forall|j: int| i + 1 <= j < m ==> !ca_set(y, j))
                && ca_tail(y, i + 1) == ca_tail(y, m);
        assert(i <= m < 15 && ca_set(y, m) && (forall|j: int| i <= j < m ==> !ca_set(y, j))
            && ca_tail(y, i) == ca_tail(y, m));
    }
}

/// Integer field values read back unambiguously before a comma or brace.
proof fn lemma_val_i32(xa: i32, xb: i32, r1: Seq<u8>, r2: Seq<u8>)
    requires
        enc_int(xa as int) + r1 == enc_int(xb as int) + r2,
        r1.len() > 0,
        r2.len() > 0,
        r1[0] == 44 || r1[0] == 125,
        r2[0] == 44 || r2[0] == 125,
    ensures
        xa == xb,
        r1 == r2,
{
    crate::json::lemma_int_prefix(xa as int, xb as int, r1, r2);
}

/// Boolean field values read back unambiguously.
proof fn lemma_val_bool(ba: bool, bb: bool, r1: Seq<u8>, r2: Seq<u8>)
    requires
        bool_bytes(ba) + r1 == bool_bytes(bb) + r2,
    ensures
        ba == bb,
        r1 == r2,
{
    let s = bool_bytes(ba) + r1;
    if ba != bb {
        assert(s[0] == bool_bytes(ba)[0]);
        assert(s[0] == bool_bytes(bb)[0]);
        assert(false);
    }
    assert(ba == bb);
    assert(r1 =~= r2) by {
        assert(r1.len() == r2.len()) by {
            assert((bool_bytes(ba) + r1).len() == bool_bytes(ba).len() + r1.len());
            assert((bool_bytes(bb) + r2).len() == bool_bytes(bb).len() + r2.len());
        }
        assert forall|t: int| 0 <= t < r1.len() implies r1[t] == r2[t] by {
            assert(s[bool_bytes(ba).len() + t] == (bool_bytes(ba) + r1)[bool_bytes(ba).len() + t]);
            assert(s[bool_bytes(ba).len() + t] == r1[t]);
            assert((bool_bytes(bb) + r2)[bool_bytes(bb).len() + t] == r2[t]);
        }
    }
}

/// String field values read back unambiguously, and determine the
/// characters.
proof fn lemma_val_str(sa: Seq<char>, sb: Seq<char>, r1: Seq<u8>, r2: Seq<u8>)
    requires
        enc_str(encode_utf8(sa)) + r1 == enc_str(encode_utf8(sb)) + r2,
    ensures
        sa == sb,
        r1 == r2,
{
    crate::json::lemma_enc_str_prefix(encode_utf8(sa), encode_utf8(sb), r1, r2);
    broadcast use vstd::utf8::encode_utf8_decode_utf8;

    assert(vstd::utf8::decode_utf8(encode_utf8(sa)) == sa);
    assert(vstd::utf8::decode_utf8(encode_utf8(sb)) == sb);
}

/// A set field's value at the same position reads back unambiguously and
/// makes the two directives agree there.
proof fn lemma_val_prefix(
    a: &CustomApplication,
    b: &CustomApplication,
    i: int,
    r1: Seq<u8>,
    r2: Seq<u8>,
)
    requires
        0 <= i < 15,
        ca_set(a, i),
        ca_set(b, i),
        ca_val(a, i) + r1 == ca_val(b, i) + r2,
        r1.len() > 0,
        r2.len() > 0,
        r1[0] == 44 || r1[0] == 125,
        r2[0] == 44 || r2[0] == 125,
    ensures
        ca_field_eq(a, b, i),
        r1 == r2,
{
    if i == 0 {
        lemma_val_i32(a.text_case->Some_0, b.text_case->Some_0, r1, r2);
        assert(a.text_case == b.text_case);
    } else if i == 1 {
        lemma_val_bool(a.top_text->Some_0, b.top_text->Some_0, r1, r2);
        assert(a.top_text == b.top_text);
    } else if i == 2 {
        lemma_val_i32(a.text_offset->Some_0, b.text_offset->Some_0, r1, r2);
        assert(a.text_offset == b.text_offset);
    } else if i == 3 {
        lemma_val_bool(a.center->Some_0, b.center->Some_0, r1, r2);
        assert(a.center == b.center);
    } else if i == 4 {
        lemma_val_str(a.color->Some_0@, b.color->Some_0@, r1, r2);
        assert(a.color.deep_view() == b.color.deep_view());
    } else if i == 5 {
        lemma_val_str(a.gradient->Some_0@, b.gradient->Some_0@, r1, r2);
        assert(a.gradient.deep_view() == b.gradient.deep_view());
    } else if i == 6 {
        lemma_val_i32(a.blink_text->Some_0, b.blink_text->Some_0, r1, r2);
        assert(a.blink_text == b.blink_text);
    } else if i == 7 {
        lemma_val_i32(a.fade_text->Some_0, b.fade_text->Some_0, r1, r2);
        assert(a.fade_text == b.fade_text);
    } else if i == 8 {
        lemma_val_str(a.background->Some_0@, b.background->Some_0@, r1, r2);
        assert(a.background.deep_view() == b.background.deep_view());
    } else if i == 9 {
        lemma_val_bool(a.rainbow->Some_0, b.rainbow->Some_0, r1, r2);
        assert(a.rainbow == b.rainbow);
    } else if i == 10 {
        lemma_val_str(a.icon->Some_0@, b.icon->Some_0@, r1, r2);
        assert(a.icon.deep_view() == b.icon.deep_view());
    } else if i == 11 {
        lemma_val_i32(a.push_icon->Some_0, b.push_icon->Some_0, r1, r2);
        assert(a.push_icon == b.push_icon);
    } else if i == 12 {
        lemma_val_i32(a.repeat->Some_0, b.repeat->Some_0, r1, r2);
        assert(a.repeat == b.repeat);
    } else if i == 13 {
        lemma_val_i32(a.duration->Some_0, b.duration->Some_0, r1, r2);
        assert(a.duration == b.duration);
    } else {
        lemma_val_i32(a.life_time->Some_0, b.life_time->Some_0, r1, r2);
        assert(a.life_time == b.life_time);
    }
}


/// Equal field tails mean the two directives agree on every remaining
/// optional field.
#[verifier::rlimit(100)]
proof fn lemma_tail_unique(a: &CustomApplication, b: &CustomApplication, i: int)
    requires
        0 <= i <= 15,
        ca_tail(a, i) == ca_tail(b, i),
    ensures
        ca_fields_eq_from(a, b, i),
    decreases 15 - i,
{
    if i >= 15 {
        assert(ca_fields_eq_from(a, b, i));
    } else {
        lemma_tail_first(a, i);
        lemma_tail_first(b, i);
        let t = ca_tail(a, i);
        if t[0] == 125 {
            assert forall|j: int| i <= j < 15 implies ca_field_eq(a, b, j) by {
                assert(!ca_set(a, j));
                assert(!ca_set(b, j));
            }
        } else {
            lemma_tail_shape(a, i);
            lemma_tail_shape(b, i);
            let ma = choose|m: int|
                #![trigger ca_tail(a, m)]
                i <= m < 15 && ca_set(a, m) && (forall|j: int| i <= j < m ==> !ca_set(a, j))
                    && ca_tail(a, i) == ca_tail(a, m);
            let mb = choose|m: int|
                #![trigger ca_tail(b, m)]
                i <= m < 15 && ca_set(b, m) && (forall|j: int| i <= j < m ==> !ca_set(b, j))
                    && ca_tail(b, i) == ca_tail(b, m);
            lemma_key_no_quote(ma);
            lemma_key_no_quote(mb);
            let ra = ca_val(a, ma) + ca_tail(a, ma + 1);
            let rb = ca_val(b, mb) + ca_tail(b, mb + 1);
            assert(ca_tail(a, ma) == ca_field_at(a, ma) + ca_tail(a, ma + 1));
            assert(ca_tail(b, mb) == ca_field_at(b, mb) + ca_tail(b, mb + 1));
            assert(ca_key(ma) + seq![34u8, 58u8] + ra =~= t.skip(2)) by {
                assert forall|x: int| 0 <= x < t.len() - 2 implies (ca_key(ma) + seq![34u8, 58u8]
                    + ra)[x] == t[x + 2] by {
                    let f = ca_field_at(a, ma);
                    assert(t[x + 2] == (f + ca_tail(a, ma + 1))[x + 2]);
                    if x + 2 < f.len() {
                        assert(f[x + 2] == ((seq![44u8, 34u8] + ca_key(ma) + seq![34u8, 58u8])
                            + ca_val(a, ma))[x + 2]);
                    }
                }
            }
            assert(ca_key(mb) + seq![34u8, 58u8] + rb =~= t.skip(2)) by {
                assert forall|x: int| 0 <= x < t.len() - 2 implies (ca_key(mb) + seq![34u8, 58u8]
                    + rb)[x] == t[x + 2] by {
                    let f = ca_field_at(b, mb);
                    assert(t[x + 2] == (f + ca_tail(b, mb + 1))[x + 2]);
                    if x + 2 < f.len() {
                        assert(f[x + 2] == ((seq![44u8, 34u8] + ca_key(mb) + seq![34u8, 58u8])
                            + ca_val(b, mb))[x + 2]);
                    }
                }
            }
            lemma_key_prefix(ma, mb, ra, rb);
            let m = ma;
            lemma_tail_first(a, m + 1);
            lemma_tail_first(b, m + 1);
            lemma_val_prefix(a, b, m, ca_tail(a, m + 1), ca_tail(b, m + 1));
            lemma_tail_unique(a, b, m + 1);
            assert forall|j: int| i <= j < 15 implies ca_field_eq(a, b, j) by {
                if j < m {
                    assert(!ca_set(a, j));
                    assert(!ca_set(b, j));
                } else if j == m {
                } else {
                    assert(ca_field_eq(a, b, j));
                }
            }
        }
    }
}

/// Round trip at the level the wire can see: two directives with the same
/// canonical encoding show the same text and agree on every optional
/// field, strings compared by their characters. The sparse encoding
/// therefore determines the whole directive.
pub proof fn lemma_custom_application_encoding_injective(a: &CustomApplication, b: &CustomApplication)
    requires
        a.spec_encode() == b.spec_encode(),
    ensures
        a.text@ == b.text@,
        ca_fields_eq_from(a, b, 0),
{
    lemma_encode_tail(a);
    lemma_encode_tail(b);
    let s = a.spec_encode();
    let ea = enc_str(encode_utf8(a.text@));
    let eb = enc_str(encode_utf8(b.text@));
    assert(ea + ca_tail(a, 0) =~= s.skip(8)) by {
        assert forall|x: int| 0 <= x < s.len() - 8 implies (ea + ca_tail(a, 0))[x] == s[x + 8] by {
            assert(s[x + 8] == ((ca_open() + ea) + ca_tail(a, 0))[x + 8]);
        }
    }
    assert(eb + ca_tail(b, 0) =~= s.skip(8)) by {
        assert forall|x: int| 0 <= x < s.len() - 8 implies (eb + ca_tail(b, 0))[x] == s[x + 8] by {
            assert(s[x + 8] == ((ca_open() + eb) + ca_tail(b, 0))[x + 8]);
        }
    }
    crate::json::lemma_enc_str_prefix(
        encode_utf8(a.text@),
        encode_utf8(b.text@),
        ca_tail(a, 0),
        ca_tail(b, 0),
    );
    broadcast use vstd::utf8::encode_utf8_decode_utf8;

    assert(vstd::utf8::decode_utf8(encode_utf8(a.text@)) == a.text@);
    assert(vstd::utf8::decode_utf8(encode_utf8(b.text@)) == b.text@);
    lemma_tail_unique(a, b, 0);
}


/// Relies on `String::from_utf8`: accepts exactly valid UTF-8 and returns
/// the string whose UTF-8 encoding is the input bytes.
#[verifier::external_body]
fn bytes_to_string(v: Vec<u8>) -> (r: Option<String>)
    ensures
        match r {
            Some(s) => encode_utf8(s@) == v@,
            Option::None => !vstd::utf8::valid_utf8(v@),
        },
{
    String::from_utf8(v).ok()
}

/// A tail whose remaining fields are all unset is just the closing brace.
proof fn lemma_tail_all_unset(y: &CustomApplication, j: int)
    requires
        0 <= j <= 15,
        forall|i: int| j <= i < 15 ==> !ca_set(y, i),
    ensures
        ca_tail(y, j) == seq![125u8],
    decreases 15 - j,
{
    if j >= 15 {
    } else {
        lemma_tail_all_unset(y, j + 1);
        assert(ca_tail(y, j) =~= ca_tail(y, j + 1));
    }
}

/// Setting one field beyond everything already set extends the whole
/// tail by exactly that field's encoding, in front of the closing brace.
proof fn lemma_tail_grow(old: &CustomApplication, new: &CustomApplication, m: int, j: int)
    requires
        0 <= j <= m < 15,
        forall|i: int| 0 <= i < 15 && i != m ==> ca_field_at(new, i) == ca_field_at(old, i),
        forall|i: int| m <= i < 15 ==> !ca_set(old, i),
        ca_set(new, m),
        forall|i: int| m < i < 15 ==> !ca_set(new, i),
    ensures
        ca_tail(old, j).len() >= 1,
        ca_tail(new, j) == ca_tail(old, j).take(ca_tail(old, j).len() - 1) + ca_field_at(new, m)
            + seq![125u8],
    decreases m - j,
{
    lemma_tail_first(old, j);
    if j == m {
        lemma_tail_all_unset(old, m);
        assert forall|i: int| m + 1 <= i < 15 implies !ca_set(new, i) by {}
        lemma_tail_all_unset(new, m + 1);
        assert(ca_tail(new, m) == ca_field_at(new, m) + ca_tail(new, m + 1));
        assert(ca_tail(old, j).take(0) =~= Seq::<u8>::empty());
        assert(ca_tail(new, j) =~= ca_tail(old, j).take(ca_tail(old, j).len() - 1)
            + ca_field_at(new, m) + seq![125u8]);
    } else {
        lemma_tail_grow(old, new, m, j + 1);
        let f = ca_field_at(old, j);
        assert(ca_field_at(new, j) == f);
        let t1 = ca_tail(old, j + 1);
        assert(ca_tail(old, j) == f + t1);
        assert(ca_tail(new, j) == f + ca_tail(new, j + 1));
        assert((f + t1).take((f + t1).len() - 1) =~= f + t1.take(t1.len() - 1)) by {
            assert forall|x: int| 0 <= x < (f + t1).len() - 1 implies (f + t1).take(
                (f + t1).len() - 1,
            )[x] == #[trigger] (f + t1.take(t1.len() - 1))[x] by {
                if x < f.len() {
                } else {
                    assert((f + t1)[x] == t1[x - f.len()]);
                    assert(t1.take(t1.len() - 1)[x - f.len()] == t1[x - f.len()]);
                }
            }
        }
        assert(ca_tail(new, j) =~= ca_tail(old, j).take(ca_tail(old, j).len() - 1)
            + ca_field_at(new, m) + seq![125u8]);
    }
}


/// Where the canonical form of an integer field value sits: the signed
/// decimal followed by a comma or the closing brace.
pub open spec fn i32_value_at(s: Seq<u8>, pos: int, v: i32, end: int) -> bool {
    &&& 0 <= pos
    &&& end == pos + enc_int(v as int).len()
    &&& end < s.len()
    &&& s.subrange(pos, end) == enc_int(v as int)
    &&& (s[end] == 44 || s[end] == 125)
}

/// Reads an integer field value. Returns exactly the one reading that
/// exists, if any.
fn parse_i32_value(b: &[u8], pos: usize) -> (r: Option<(i32, usize)>)
    requires
        pos <= b@.len(),
    ensures
        match r {
            Some(p) => i32_value_at(b@, pos as int, p.0, p.1 as int) && pos < p.1 < b@.len(),
            Option::None => forall|v: i32, end: int| !i32_value_at(b@, pos as int, v, end),
        },
{
    match crate::json::parse_int(b, pos) {
        Some((v, end)) => {
            if -2147483648i64 <= v && v <= 2147483647i64 && end < b.len() && (b[end] == 44
                || b[end] == 125) {
                proof {
                    assert(b@.subrange(pos as int, end as int) == enc_int(v as int));
                    assert(enc_int((v as i32) as int) == enc_int(v as int));
                }
                Some((v as i32, end))
            } else {
                proof {
                    assert forall|v2: i32, end2: int| !i32_value_at(b@, pos as int, v2, end2) by {
                        if i32_value_at(b@, pos as int, v2, end2) {
                            assert(crate::json::int_at(b@, pos as int, v2 as i64, end2));
                            crate::json::lemma_int_at_unique(
                                b@,
                                pos as int,
                                v,
                                end as int,
                                v2 as i64,
                                end2,
                            );
                        }
                    }
                }
                Option::None
            }
        },
        Option::None => {
            proof {
                assert forall|v2: i32, end2: int| !i32_value_at(b@, pos as int, v2, end2) by {
                    if i32_value_at(b@, pos as int, v2, end2) {
                        assert(crate::json::int_at(b@, pos as int, v2 as i64, end2));
                    }
                }
            }
            Option::None
        },
    }
}

/// Where the canonical form of a boolean field value sits.
pub open spec fn bool_value_at(s: Seq<u8>, pos: int, v: bool, end: int) -> bool {
    &&& 0 <= pos
    &&& end == pos + bool_bytes(v).len()
    &&& end <= s.len()
    &&& s.subrange(pos, end) == bool_bytes(v)
}

/// Reads a boolean field value.
fn parse_bool_value(b: &[u8], pos: usize) -> (r: Option<(bool, usize)>)
    requires
        pos <= b@.len(),
    ensures
        match r {
            Some(p) => bool_value_at(b@, pos as int, p.0, p.1 as int) && pos < p.1 <= b@.len(),
            Option::None => forall|v: bool, end: int| !bool_value_at(b@, pos as int, v, end),
        },
{
    let n = b.len();
    let tv: Vec<u8> = vec![116u8, 114u8, 117u8, 101u8];
    let fv: Vec<u8> = vec![102u8, 97u8, 108u8, 115u8, 101u8];
    proof {
        assert(tv@ =~= bool_bytes(true));
        assert(fv@ =~= bool_bytes(false));
    }
    if match_lit(b, pos, tv.as_slice()) {
        proof {
            assert(pos + 4 <= n);
        }
        return Some((true, pos + 4));
    }
    if match_lit(b, pos, fv.as_slice()) {
        proof {
            assert(pos + 5 <= n);
        }
        return Some((false, pos + 5));
    }
    proof {
        assert forall|v: bool, end: int| !bool_value_at(b@, pos as int, v, end) by {
            if bool_value_at(b@, pos as int, v, end) {
                if v {
                    assert(b@.subrange(pos as int, pos + 4) == bool_bytes(true));
                } else {
                    assert(b@.subrange(pos as int, pos + 5) == bool_bytes(false));
                }
            }
        }
    }
    Option::None
}

/// Where the canonical form of a string field value sits.
pub open spec fn str_value_at(s: Seq<u8>, pos: int, c: Seq<char>, end: int) -> bool {
    &&& 0 <= pos
    &&& end == pos + enc_str(encode_utf8(c)).len()
    &&& end <= s.len()
    &&& s.subrange(pos, end) == enc_str(encode_utf8(c))
}

/// A string value reading opens with a quote and contains an escaped body
/// reading.
proof fn lemma_str_value_gives_body(s: Seq<u8>, pos: int, c: Seq<char>, end: int)
    requires
        str_value_at(s, pos, c, end),
    ensures
        pos < s.len(),
        s[pos] == 34,
        crate::json::str_body_at(s, pos + 1, encode_utf8(c), end),
{
    let e = enc_str(encode_utf8(c));
    let body = crate::json::esc_bytes(encode_utf8(c));
    assert(s[pos] == s.subrange(pos, end)[0]);
    assert(e[0] == (seq![34u8] + body)[0]);
    assert(s.subrange(pos + 1, end) =~= body + seq![34u8]) by {
        assert forall|x: int| 0 <= x < end - pos - 1 implies s.subrange(pos + 1, end)[x] == (body
            + seq![34u8])[x] by {
            assert(s.subrange(pos, end)[x + 1] == e[x + 1]);
            assert(e[x + 1] == ((seq![34u8] + body) + seq![34u8])[x + 1]);
        }
    }
}

/// Reads a string field value. Returns exactly the one reading that
/// exists, if any.
fn parse_str_value(b: &[u8], pos: usize) -> (r: Option<(String, usize)>)
    requires
        pos <= b@.len(),
    ensures
        match r {
            Some(p) => {
                &&& str_value_at(b@, pos as int, p.0@, p.1 as int)
                &&& pos < p.1 <= b@.len()
                &&& forall|c: Seq<char>, e2: int|
                    str_value_at(b@, pos as int, c, e2) ==> c == p.0@ && e2 == p.1 as int
            },
            Option::None => forall|c: Seq<char>, end: int| !str_value_at(b@, pos as int, c, end),
        },
{
    let n = b.len();
    if pos == n || b[pos] != 34 {
        proof {
            assert forall|c: Seq<char>, end: int| !str_value_at(b@, pos as int, c, end) by {
                if str_value_at(b@, pos as int, c, end) {
                    lemma_str_value_gives_body(b@, pos as int, c, end);
                }
            }
        }
        return Option::None;
    }
    match crate::json::parse_str_body(b, pos + 1) {
        Some((content, end)) => {
            let ghost content_view = content@;
            match bytes_to_string(content) {
                Some(st) => {
                    proof {
                        broadcast use vstd::utf8::encode_utf8_decode_utf8;

                        assert(encode_utf8(st@) == content_view);
                        assert(b@.subrange(pos as int, end as int) =~= enc_str(encode_utf8(st@)))
                            by {
                            let body = crate::json::esc_bytes(content_view);
                            assert forall|x: int| 0 <= x < end - pos implies b@.subrange(
                                pos as int,
                                end as int,
                            )[x] == enc_str(encode_utf8(st@))[x] by {
                                if x > 0 {
                                    assert(b@.subrange(pos + 1, end as int)[x - 1] == b@[pos + x]);
                                    assert((body + seq![34u8])[x - 1] == ((seq![34u8] + body)
                                        + seq![34u8])[x]);
                                }
                            }
                        }
                        assert forall|c: Seq<char>, e2: int|
                            str_value_at(b@, pos as int, c, e2) implies c == st@ && e2
                            == end as int by {
                            lemma_str_value_gives_body(b@, pos as int, c, e2);
                            assert(encode_utf8(c) == content_view && e2 == end as int);
                            assert(vstd::utf8::decode_utf8(encode_utf8(c)) == c);
                            assert(vstd::utf8::decode_utf8(encode_utf8(st@)) == st@);
                        }
                    }
                    Some((st, end))
                },
                Option::None => {
                    proof {
                        broadcast use vstd::utf8::encode_utf8_valid_utf8;

                        assert forall|c: Seq<char>, e2: int| !str_value_at(b@, pos as int, c, e2)
                        by {
                            if str_value_at(b@, pos as int, c, e2) {
                                lemma_str_value_gives_body(b@, pos as int, c, e2);
                                assert(encode_utf8(c) == content_view);
                                assert(vstd::utf8::valid_utf8(encode_utf8(c)));
                            }
                        }
                    }
                    Option::None
                },
            }
        },
        Option::None => {
            proof {
                assert forall|c: Seq<char>, end: int| !str_value_at(b@, pos as int, c, end) by {
                    if str_value_at(b@, pos as int, c, end) {
                        lemma_str_value_gives_body(b@, pos as int, c, end);
                    }
                }
            }
            Option::None
        },
    }
}

/// Matches the scanned key span against the known field keys; at most one
/// key has the span's bytes.
fn match_key(b: &[u8], pos: usize, keylen: usize) -> (r: Option<usize>)
    requires
        pos + keylen <= b@.len(),
    ensures
        match r {
            Some(i) => i < 15 && keylen == ca_key(i as int).len() && b@.subrange(
                pos as int,
                pos + keylen,
            ) == ca_key(i as int),
            Option::None => forall|i: int|
                0 <= i < 15 ==> !(keylen == ca_key(i).len() && b@.subrange(pos as int, pos + keylen)
                    == ca_key(i)),
        },
{
    let k0 = key_text_case_v();
    if keylen == k0.len() {
        if match_lit(b, pos, k0.as_slice()) {
            return Some(0);
        }
    }
    let k1 = key_top_text_v();
    if keylen == k1.len() {
        if match_lit(b, pos, k1.as_slice()) {
            return Some(1);
        }
    }
    let k2 = key_text_offset_v();
    if keylen == k2.len() {
        if match_lit(b, pos, k2.as_slice()) {
            return Some(2);
        }
    }
    let k3 = key_center_v();
    if keylen == k3.len() {
        if match_lit(b, pos, k3.as_slice()) {
            return Some(3);
        }
    }
    let k4 = key_color_v();
    if keylen == k4.len() {
        if match_lit(b, pos, k4.as_slice()) {
            return Some(4);
        }
    }
    let k5 = key_gradient_v();
    if keylen == k5.len() {
        if match_lit(b, pos, k5.as_slice()) {
            return Some(5);
        }
    }
    let k6 = key_blink_text_v();
    if keylen == k6.len() {
        if match_lit(b, pos, k6.as_slice()) {
            return Some(6);
        }
    }
    let k7 = key_fade_text_v();
    if keylen == k7.len() {
        if match_lit(b, pos, k7.as_slice()) {
            return Some(7);
        }
    }
    let k8 = key_background_v();
    if keylen == k8.len() {
        if match_lit(b, pos, k8.as_slice()) {
            return Some(8);
        }
    }
    let k9 = key_rainbow_v();
    if keylen == k9.len() {
        if match_lit(b, pos, k9.as_slice()) {
            return Some(9);
        }
    }
    let k10 = key_icon_v();
    if keylen == k10.len() {
        if match_lit(b, pos, k10.as_slice()) {
            return Some(10);
        }
    }
    let k11 = key_push_icon_v();
    if keylen == k11.len() {
        if match_lit(b, pos, k11.as_slice()) {
            return Some(11);
        }
    }
    let k12 = key_repeat_v();
    if keylen == k12.len() {
        if match_lit(b, pos, k12.as_slice()) {
            return Some(12);
        }
    }
    let k13 = key_duration_v();
    if keylen == k13.len() {
        if match_lit(b, pos, k13.as_slice()) {
            return Some(13);
        }
    }
    let k14 = key_life_time_v();
    if keylen == k14.len() {
        if match_lit(b, pos, k14.as_slice()) {
            return Some(14);
        }
    }
    proof {
        assert forall|i: int|
            0 <= i < 15 implies !(keylen == ca_key(i).len() && b@.subrange(
            pos as int,
            pos + keylen,
        ) == ca_key(i)) by {
            if i == 0 {
                assert(ca_key(i) == key_text_case());
            } else if i == 1 {
                assert(ca_key(i) == key_top_text());
            } else if i == 2 {
                assert(ca_key(i) == key_text_offset());
            } else if i == 3 {
                assert(ca_key(i) == key_center());
            } else if i == 4 {
                assert(ca_key(i) == key_color());
            } else if i == 5 {
                assert(ca_key(i) == key_gradient());
            } else if i == 6 {
                assert(ca_key(i) == key_blink_text());
            } else if i == 7 {
                assert(ca_key(i) == key_fade_text());
            } else if i == 8 {
                assert(ca_key(i) == key_background());
            } else if i == 9 {
                assert(ca_key(i) == key_rainbow());
            } else if i == 10 {
                assert(ca_key(i) == key_icon());
            } else if i == 11 {
                assert(ca_key(i) == key_push_icon());
            } else if i == 12 {
                assert(ca_key(i) == key_repeat());
            } else if i == 13 {
                assert(ca_key(i) == key_duration());
            } else if i == 14 {
                assert(ca_key(i) == key_life_time());
            } else {
                assert(false);
            }
        }
    }
    Option::None
}


/// Splitting a known concatenation out of a subrange.
proof fn lemma_concat_split(s: Seq<u8>, pos: int, a: Seq<u8>, rest: Seq<u8>)
    requires
        0 <= pos <= s.len(),
        a + rest == s.subrange(pos, s.len() as int),
    ensures
        pos + a.len() + rest.len() == s.len(),
        s.subrange(pos, pos + a.len() as int) == a,
        rest.len() > 0 ==> s[pos + a.len()] == rest[0],
        rest == s.subrange(pos + a.len() as int, s.len() as int),
{
    assert((a + rest).len() == s.len() - pos);
    assert(s.subrange(pos, pos + a.len() as int) =~= a) by {
        assert forall|x: int| 0 <= x < a.len() implies s.subrange(pos, pos + a.len() as int)[x]
            == a[x] by {
            assert(s.subrange(pos, s.len() as int)[x] == (a + rest)[x]);
            assert(s.subrange(pos, s.len() as int)[x] == s[pos + x]);
        }
    }
    assert(rest =~= s.subrange(pos + a.len() as int, s.len() as int)) by {
        assert forall|x: int| 0 <= x < rest.len() implies rest[x] == s.subrange(
            pos + a.len() as int,
            s.len() as int,
        )[x] by {
            assert(s.subrange(pos, s.len() as int)[a.len() + x] == (a + rest)[a.len() + x]);
            assert(s.subrange(pos, s.len() as int)[a.len() + x] == s[pos + a.len() + x]);
        }
    }
    if rest.len() > 0 {
        assert(s[pos + a.len()] == s.subrange(pos + a.len() as int, s.len() as int)[0]);
    }
}

/// Extending a consumed prefix by one whole field: comma, quoted key,
/// colon, value.
proof fn lemma_prefix_extend(s: Seq<u8>, pos: int, vend: int, prefix: Seq<u8>, key: Seq<u8>, valb: Seq<u8>)
    requires
        0 <= pos,
        pos + 4 + key.len() <= vend <= s.len(),
        s.subrange(0, pos) == prefix,
        s[pos] == 44,
        s[pos + 1] == 34,
        s.subrange(pos + 2, pos + 2 + key.len() as int) == key,
        s[pos + 2 + key.len()] == 34,
        s[pos + 3 + key.len()] == 58,
        s.subrange(pos + 4 + key.len() as int, vend) == valb,
    ensures
        s.subrange(0, vend) == prefix + (seq![44u8, 34u8] + key + seq![34u8, 58u8] + valb),
{
    let fb = seq![44u8, 34u8] + key + seq![34u8, 58u8] + valb;
    assert(s.subrange(0, vend) =~= prefix + fb) by {
        assert forall|x: int| 0 <= x < vend implies s.subrange(0, vend)[x] == (prefix + fb)[x] by {
            if x < pos {
                assert(s.subrange(0, pos)[x] == s[x]);
            } else if x == pos || x == pos + 1 {
            } else if x < pos + 2 + key.len() {
                assert(s.subrange(pos + 2, pos + 2 + key.len() as int)[x - pos - 2] == s[x]);
                assert(fb[x - pos] == (((seq![44u8, 34u8] + key) + seq![34u8, 58u8]) + valb)[x
                    - pos]);
            } else if x == pos + 2 + key.len() || x == pos + 3 + key.len() {
                assert(fb[x - pos] == (((seq![44u8, 34u8] + key) + seq![34u8, 58u8]) + valb)[x
                    - pos]);
            } else {
                assert(s.subrange(pos + 4 + key.len() as int, vend)[x - pos - 4 - key.len()]
                    == s[x]);
                assert(fb[x - pos] == (((seq![44u8, 34u8] + key) + seq![34u8, 58u8]) + valb)[x
                    - pos]);
            }
        }
    }
}

/// How every encoding opens: the fixed literal, the quoted text, and the
/// field tail as the remainder.
proof fn lemma_candidate_decomp(y: &CustomApplication, s: Seq<u8>)
    requires
        y.spec_encode() == s,
    ensures
        s.len() >= 10,
        s.subrange(0, 8) == ca_open(),
        s[8] == 34,
        crate::json::str_body_at(
            s,
            9,
            encode_utf8(y.text@),
            10 + crate::json::esc_bytes(encode_utf8(y.text@)).len() as int,
        ),
        ca_tail(y, 0) == s.subrange(
            10 + crate::json::esc_bytes(encode_utf8(y.text@)).len() as int,
            s.len() as int,
        ),
{
    lemma_encode_tail(y);
    lemma_tail_first(y, 0);
    let body = crate::json::esc_bytes(encode_utf8(y.text@));
    let st = enc_str(encode_utf8(y.text@));
    assert(s == ca_open() + st + ca_tail(y, 0));
    assert(s.subrange(0, 8) =~= ca_open()) by {
        assert forall|x: int| 0 <= x < 8 implies s.subrange(0, 8)[x] == ca_open()[x] by {
            assert(s[x] == ((ca_open() + st) + ca_tail(y, 0))[x]);
        }
    }
    assert(s[8] == ((ca_open() + st) + ca_tail(y, 0))[8]);
    assert(st[0] == ((seq![34u8] + body) + seq![34u8])[0]);
    assert(s.subrange(9, 10 + body.len() as int) =~= body + seq![34u8]) by {
        assert forall|x: int| 0 <= x < body.len() + 1 implies s.subrange(
            9,
            10 + body.len() as int,
        )[x] == (body + seq![34u8])[x] by {
            assert(s[9 + x] == ((ca_open() + st) + ca_tail(y, 0))[9 + x]);
            assert(st[1 + x] == ((seq![34u8] + body) + seq![34u8])[1 + x]);
        }
    }
    assert(ca_tail(y, 0) =~= s.subrange(10 + body.len() as int, s.len() as int)) by {
        assert forall|x: int| 0 <= x < ca_tail(y, 0).len() implies ca_tail(y, 0)[x] == s.subrange(
            10 + body.len() as int,
            s.len() as int,
        )[x] by {
            assert(s[10 + body.len() + x] == ((ca_open() + st) + ca_tail(y, 0))[10 + body.len()
                + x]);
        }
    }
}

/// What a field tail that continues with the key at position `i` says
/// about the candidate: its first set field from `k` on is exactly `i`,
/// and its value bytes follow the key.
proof fn lemma_candidate_field(y: &CustomApplication, s: Seq<u8>, k: int, pos: int, i: int)
    requires
        0 <= k <= 15,
        0 <= i < 15,
        0 <= pos < s.len(),
        ca_tail(y, k) == s.subrange(pos, s.len() as int),
        s[pos] == 44,
        pos + 2 + ca_key(i).len() < s.len(),
        s.subrange(pos + 2, pos + 2 + ca_key(i).len() as int) == ca_key(i),
        s[pos + 2 + ca_key(i).len()] == 34,
    ensures
        k <= i,
        ca_set(y, i),
        forall|j: int| k <= j < i ==> !ca_set(y, j),
        ca_val(y, i) + ca_tail(y, i + 1) == s.subrange(pos + 4 + ca_key(i).len() as int, s.len() as int),
        ca_tail(y, i + 1).len() >= 1,
        ca_tail(y, i + 1)[0] == 44 || ca_tail(y, i + 1)[0] == 125,
        s[pos + 3 + ca_key(i).len()] == 58,
        pos + 4 + ca_key(i).len() <= s.len(),
{
    assert(ca_tail(y, k)[0] == 44);
    lemma_tail_shape(y, k);
    let m = choose|m: int|
        #![trigger ca_tail(y, m)]
        k <= m < 15 && ca_set(y, m) && (forall|j: int| k <= j < m ==> !ca_set(y, j)) && ca_tail(
            y,
            k,
        ) == ca_tail(y, m);
    lemma_key_no_quote(m);
    lemma_key_no_quote(i);
    let key = ca_key(m);
    let head = seq![44u8, 34u8] + key + seq![34u8, 58u8];
    let rest = ca_val(y, m) + ca_tail(y, m + 1);
    assert(ca_tail(y, m) == ca_field_at(y, m) + ca_tail(y, m + 1));
    assert(head + rest =~= s.subrange(pos, s.len() as int)) by {
        assert(ca_field_at(y, m) == (seq![44u8, 34u8] + key + seq![34u8, 58u8]) + ca_val(y, m));
    }
    lemma_concat_split(s, pos, head, rest);
    assert(s.subrange(pos + 2, pos + 2 + key.len() as int) =~= key) by {
        assert forall|x: int| 0 <= x < key.len() implies s.subrange(
            pos + 2,
            pos + 2 + key.len() as int,
        )[x] == key[x] by {
            assert(s.subrange(pos, pos + head.len() as int)[2 + x] == head[2 + x]);
            assert(s.subrange(pos, pos + head.len() as int)[2 + x] == s[pos + 2 + x]);
        }
    }
    assert(s[pos + 2 + key.len()] == 34) by {
        assert(s.subrange(pos, pos + head.len() as int)[2 + key.len() as int] == head[2
            + key.len() as int]);
        assert(s.subrange(pos, pos + head.len() as int)[2 + key.len() as int] == s[pos + 2
            + key.len()]);
    }
    assert(key.len() == ca_key(i).len()) by {
        if key.len() < ca_key(i).len() {
            assert(ca_key(i)[key.len() as int] == s.subrange(
                pos + 2,
                pos + 2 + ca_key(i).len() as int,
            )[key.len() as int]);
            assert(ca_key(i)[key.len() as int] == s[pos + 2 + key.len()]);
            assert(false);
        } else if ca_key(i).len() < key.len() {
            assert(key[ca_key(i).len() as int] == s[pos + 2 + ca_key(i).len()]);
            assert(false);
        }
    }
    assert(key =~= ca_key(i)) by {
        assert forall|x: int| 0 <= x < key.len() implies key[x] == ca_key(i)[x] by {
            assert(s.subrange(pos + 2, pos + 2 + key.len() as int)[x] == key[x]);
            assert(s.subrange(pos + 2, pos + 2 + ca_key(i).len() as int)[x] == ca_key(i)[x]);
        }
    }
    lemma_key_inj(m, i);
    assert(s[pos + 3 + key.len()] == 58) by {
        assert(s.subrange(pos, pos + head.len() as int)[3 + key.len() as int] == head[3
            + key.len() as int]);
        assert(s.subrange(pos, pos + head.len() as int)[3 + key.len() as int] == s[pos + 3
            + key.len()]);
    }
    lemma_tail_first(y, m + 1);
    assert(rest == s.subrange(pos + 4 + key.len() as int, s.len() as int));
}



/// No directive encodes to bytes whose field tail continues with anything
/// but a quoted key after the comma.
proof fn lemma_err_no_second_quote(s: Seq<u8>, k: int, pos: int)
    requires
        0 <= k <= 15,
        0 <= pos < s.len(),
        s[pos] == 44,
        pos + 1 == s.len() || s[pos + 1] != 34,
        forall|y: CustomApplication|
            y.spec_encode() == s ==> ca_tail(&y, k) == s.subrange(pos, s.len() as int),
    ensures
        forall|y: CustomApplication| y.spec_encode() != s,
{
    assert forall|y: CustomApplication| y.spec_encode() != s by {
        if y.spec_encode() == s {
            lemma_candidate_head(&y, s, k, pos);
        }
    }
}

/// No directive encodes to bytes with no closing quote after the key
/// start.
proof fn lemma_err_no_closing_quote(s: Seq<u8>, k: int, pos: int)
    requires
        0 <= k <= 15,
        0 <= pos < s.len(),
        s[pos] == 44,
        forall|t: int| pos + 2 <= t < s.len() ==> s[t] != 34,
        forall|y: CustomApplication|
            y.spec_encode() == s ==> ca_tail(&y, k) == s.subrange(pos, s.len() as int),
    ensures
        forall|y: CustomApplication| y.spec_encode() != s,
{
    assert forall|y: CustomApplication| y.spec_encode() != s by {
        if y.spec_encode() == s {
            lemma_candidate_head(&y, s, k, pos);
            let m = choose|m: int|
                #![trigger ca_key(m)]
                k <= m < 15 && s[pos + 1] == 34 && pos + 2 + ca_key(m).len() < s.len()
                    && s.subrange(pos + 2, pos + 2 + ca_key(m).len() as int) == ca_key(m) && s[pos
                    + 2 + ca_key(m).len()] == 34 && (forall|t: int|
                    pos + 2 <= t < pos + 2 + ca_key(m).len() ==> s[t] != 34);
            assert(s[pos + 2 + ca_key(m).len()] == 34);
        }
    }
}

/// The first quote after the key start sits exactly at the candidate's
/// key end.
proof fn lemma_scan_pins_key(s: Seq<u8>, k: int, pos: int, j: int) -> (m: int)
    requires
        0 <= k <= 15,
        0 <= pos < s.len(),
        s[pos] == 44,
        pos + 2 <= j < s.len(),
        s[j] == 34,
        forall|t: int| pos + 2 <= t < j ==> s[t] != 34,
        exists|y: CustomApplication|
            y.spec_encode() == s && ca_tail(&y, k) == s.subrange(pos, s.len() as int),
    ensures
        k <= m < 15,
        j == pos + 2 + ca_key(m).len(),
        s.subrange(pos + 2, pos + 2 + ca_key(m).len() as int) == ca_key(m),
        pos + 2 + ca_key(m).len() < s.len(),
        s[pos + 3 + ca_key(m).len()] == 58,
        pos + 4 + ca_key(m).len() <= s.len(),
        forall|y: CustomApplication|
            y.spec_encode() == s && ca_tail(&y, k) == s.subrange(pos, s.len() as int)
                ==> ca_set(&y, m),
{
    let y0 = choose|y: CustomApplication|
        y.spec_encode() == s && ca_tail(&y, k) == s.subrange(pos, s.len() as int);
    lemma_candidate_head(&y0, s, k, pos);
    let m = choose|m: int|
        #![trigger ca_key(m)]
        k <= m < 15 && s[pos + 1] == 34 && pos + 2 + ca_key(m).len() < s.len() && s.subrange(
            pos + 2,
            pos + 2 + ca_key(m).len() as int,
        ) == ca_key(m) && s[pos + 2 + ca_key(m).len()] == 34 && (forall|t: int|
            pos + 2 <= t < pos + 2 + ca_key(m).len() ==> s[t] != 34);
    assert(j == pos + 2 + ca_key(m).len()) by {
        if j < pos + 2 + ca_key(m).len() {
            assert(s[j] != 34);
        } else if j > pos + 2 + ca_key(m).len() {
            assert(s[pos + 2 + ca_key(m).len()] != 34);
        }
    }
    lemma_candidate_field(&y0, s, k, pos, m);
    assert forall|y: CustomApplication|
        y.spec_encode() == s && ca_tail(&y, k) == s.subrange(pos, s.len() as int) implies ca_set(
        &y,
        m,
    ) by {
        lemma_candidate_field(&y, s, k, pos, m);
    }
    m
}

/// Finds the first quote byte at or after `from`.
fn scan_quote(b: &[u8], from: usize) -> (r: Option<usize>)
    requires
        from <= b@.len(),
    ensures
        match r {
            Some(j) => from <= j < b@.len() && b@[j as int] == 34 && (forall|t: int|
                from <= t < j ==> b@[t] != 34),
            Option::None => forall|t: int| from <= t < b@.len() ==> b@[t] != 34,
        },
{
    let n = b.len();
    let mut j = from;
    while j < n
        invariant
            from <= j <= n,
            n == b@.len(),
            forall|t: int| from <= t < j ==> b@[t] != 34,
        decreases n - j,
    {
        if b[j] == 34 {
            return Some(j);
        }
        j += 1;
    }
    Option::None
}

/// A set field's value bytes are never empty.
proof fn lemma_val_len(y: &CustomApplication, i: int)
    requires
        0 <= i < 15,
        ca_set(y, i),
    ensures
        ca_val(y, i).len() >= 1,
{
    if i == 0 {
        crate::json::lemma_dec_digits_props(dec_mag_of(y.text_case->Some_0 as int));
    } else if i == 2 {
        crate::json::lemma_dec_digits_props(dec_mag_of(y.text_offset->Some_0 as int));
    } else if i == 6 {
        crate::json::lemma_dec_digits_props(dec_mag_of(y.blink_text->Some_0 as int));
    } else if i == 7 {
        crate::json::lemma_dec_digits_props(dec_mag_of(y.fade_text->Some_0 as int));
    } else if i == 11 {
        crate::json::lemma_dec_digits_props(dec_mag_of(y.push_icon->Some_0 as int));
    } else if i == 12 {
        crate::json::lemma_dec_digits_props(dec_mag_of(y.repeat->Some_0 as int));
    } else if i == 13 {
        crate::json::lemma_dec_digits_props(dec_mag_of(y.duration->Some_0 as int));
    } else if i == 14 {
        crate::json::lemma_dec_digits_props(dec_mag_of(y.life_time->Some_0 as int));
    }
}

/// The magnitude whose digits a signed decimal carries.
pub open spec fn dec_mag_of(v: int) -> nat {
    if v < 0 {
        (-v) as nat
    } else {
        v as nat
    }
}

/// A field tail that continues with a comma names some key, quoted and
/// colon-terminated, with a non-empty value after it.
proof fn lemma_candidate_head(y: &CustomApplication, s: Seq<u8>, k: int, pos: int)
    requires
        0 <= k <= 15,
        0 <= pos < s.len(),
        ca_tail(y, k) == s.subrange(pos, s.len() as int),
        s[pos] == 44,
    ensures
        exists|m: int|
            #![trigger ca_key(m)]
            k <= m < 15 && s[pos + 1] == 34 && pos + 2 + ca_key(m).len() < s.len() && s.subrange(
                pos + 2,
                pos + 2 + ca_key(m).len() as int,
            ) == ca_key(m) && s[pos + 2 + ca_key(m).len()] == 34 && (forall|t: int|
                pos + 2 <= t < pos + 2 + ca_key(m).len() ==> s[t] != 34),
{
    assert(ca_tail(y, k)[0] == 44);
    lemma_tail_shape(y, k);
    let m = choose|m: int|
        #![trigger ca_tail(y, m)]
        k <= m < 15 && ca_set(y, m) && (forall|j: int| k <= j < m ==> !ca_set(y, j)) && ca_tail(
            y,
            k,
        ) == ca_tail(y, m);
    lemma_key_no_quote(m);
    lemma_val_len(y, m);
    lemma_tail_first(y, m + 1);
    let key = ca_key(m);
    let head = seq![44u8, 34u8] + key + seq![34u8, 58u8];
    let rest = ca_val(y, m) + ca_tail(y, m + 1);
    assert(ca_tail(y, m) == ca_field_at(y, m) + ca_tail(y, m + 1));
    assert(head + rest =~= s.subrange(pos, s.len() as int)) by {
        assert(ca_field_at(y, m) == (seq![44u8, 34u8] + key + seq![34u8, 58u8]) + ca_val(y, m));
    }
    lemma_concat_split(s, pos, head, rest);
    assert(s[pos + 1] == s.subrange(pos, pos + head.len() as int)[1]);
    assert(s.subrange(pos + 2, pos + 2 + key.len() as int) =~= key) by {
        assert forall|x: int| 0 <= x < key.len() implies s.subrange(
            pos + 2,
            pos + 2 + key.len() as int,
        )[x] == key[x] by {
            assert(s.subrange(pos, pos + head.len() as int)[2 + x] == head[2 + x]);
            assert(s.subrange(pos, pos + head.len() as int)[2 + x] == s[pos + 2 + x]);
        }
    }
    assert(s[pos + 2 + key.len()] == 34) by {
        assert(s.subrange(pos, pos + head.len() as int)[2 + key.len() as int] == head[2
            + key.len() as int]);
        assert(s.subrange(pos, pos + head.len() as int)[2 + key.len() as int] == s[pos + 2
            + key.len()]);
    }
    assert(rest.len() >= 2);
    assert(pos + 2 + key.len() < s.len());
    assert forall|t: int| pos + 2 <= t < pos + 2 + key.len() implies s[t] != 34 by {
        assert(s.subrange(pos + 2, pos + 2 + key.len() as int)[t - pos - 2] == s[t]);
    }
}


/// One decoding step for the `text_case` field: the consumed bytes extend by
/// exactly this field's encoding, and every candidate carries this field
/// with this value.
#[verifier::rlimit(100)]
proof fn lemma_step_text_case(
    s: Seq<u8>,
    n: int,
    pos: int,
    vpos: int,
    vend: int,
    k: int,
    I: int,
    oldc: &CustomApplication,
    cur: &CustomApplication,
    acc: Seq<u8>,
    v: i32,
)
    requires
        I == 0,
        n == s.len(),
        0 <= k <= I < 15,
        8 <= pos,
        pos + 2 + ca_key(I).len() < n,
        vpos == pos + 4 + ca_key(I).len(),
        s[pos] == 44,
        s[pos + 1] == 34,
        s.subrange(pos + 2, pos + 2 + ca_key(I).len() as int) == ca_key(I),
        s[pos + 2 + ca_key(I).len()] == 34,
        s[pos + 3 + ca_key(I).len()] == 58,
        forall|y: CustomApplication|
            y.spec_encode() == s ==> (ca_tail(&y, k) == s.subrange(pos, n)),
        i32_value_at(s, vpos, v, vend),
        vpos < vend <= n,
        forall|j: int| k <= j < 15 ==> !ca_set(oldc, j),
        ca_tail(oldc, 0) == acc + seq![125u8],
        s.subrange(0, pos) == ca_open() + enc_str(encode_utf8(oldc.text@)) + acc,
        forall|y: CustomApplication|
            y.spec_encode() == s ==> (y.text@ == oldc.text@ && (forall|j2: int|
                0 <= j2 < k ==> ca_field_eq(&y, oldc, j2))),
        cur.text == oldc.text,
        cur.text_case == Some(v),
        cur.top_text == oldc.top_text,
        cur.text_offset == oldc.text_offset,
        cur.center == oldc.center,
        cur.color == oldc.color,
        cur.gradient == oldc.gradient,
        cur.blink_text == oldc.blink_text,
        cur.fade_text == oldc.fade_text,
        cur.background == oldc.background,
        cur.rainbow == oldc.rainbow,
        cur.icon == oldc.icon,
        cur.push_icon == oldc.push_icon,
        cur.repeat == oldc.repeat,
        cur.duration == oldc.duration,
        cur.life_time == oldc.life_time,
    ensures
        forall|j: int| I + 1 <= j < 15 ==> !ca_set(cur, j),
        ca_tail(cur, 0) == (acc + ca_field_at(cur, I)) + seq![125u8],
        s.subrange(0, vend) == ca_open() + enc_str(encode_utf8(cur.text@)) + (acc + ca_field_at(
            cur,
            I,
        )),
        forall|y: CustomApplication|
            y.spec_encode() == s ==> (y.text@ == cur.text@ && (forall|j2: int|
                0 <= j2 < I + 1 ==> ca_field_eq(&y, cur, j2)) && ca_tail(&y, I + 1) == s.subrange(
                vend,
                n,
            )),
{
    assert(ca_set(cur, I));
    assert(ca_val(cur, I) == enc_int(v as int));
    assert forall|i2: int| 0 <= i2 < 15 && i2 != I implies ca_field_at(cur, i2) == ca_field_at(
        oldc,
        i2,
    ) by {}
    assert forall|i2: int| I <= i2 < 15 implies !ca_set(oldc, i2) by {
        assert(!ca_set(oldc, i2));
    }
    assert forall|i2: int| I < i2 < 15 implies !ca_set(cur, i2) by {
        assert(!ca_set(oldc, i2));
    }
    lemma_tail_grow(oldc, cur, I, 0);
    let fb = ca_field_at(cur, I);
    assert((acc + seq![125u8]).take((acc + seq![125u8]).len() - 1) =~= acc);
    assert(ca_tail(cur, 0) =~= (acc + fb) + seq![125u8]);
    assert(s.subrange(vpos, vend) == enc_int(v as int));
    lemma_prefix_extend(s, pos, vend, s.subrange(0, pos), ca_key(I), enc_int(v as int));
    assert(s.subrange(0, vend) =~= ca_open() + enc_str(encode_utf8(cur.text@)) + (acc + fb));
    assert forall|y: CustomApplication|
        y.spec_encode() == s implies (y.text@ == cur.text@ && (forall|j2: int|
        0 <= j2 < I + 1 ==> ca_field_eq(&y, cur, j2)) && ca_tail(&y, I + 1) == s.subrange(
        vend,
        n,
    )) by {
        lemma_candidate_field(&y, s, k, pos, I);
            let xv = y.text_case->Some_0;
            assert(ca_val(&y, I) == enc_int(xv as int));
            lemma_concat_split(s, vpos, enc_int(xv as int), ca_tail(&y, I + 1));
            assert(i32_value_at(s, vpos, xv, vpos + enc_int(xv as int).len() as int));
            assert(crate::json::int_at(s, vpos, xv as i64, vpos + enc_int(xv as int).len() as int));
            assert(crate::json::int_at(s, vpos, v as i64, vend));
            crate::json::lemma_int_at_unique(
                s,
                vpos,
                v as i64,
                vend,
                xv as i64,
                vpos + enc_int(xv as int).len() as int,
            );
            assert(y.text_case == Some(v));
            assert(ca_tail(&y, I + 1) == s.subrange(vend, n));
        assert forall|j2: int| 0 <= j2 < I + 1 implies ca_field_eq(&y, cur, j2) by {
            if j2 < k {
                assert(ca_field_eq(&y, oldc, j2));
            } else if j2 < I {
                assert(!ca_set(&y, j2));
                assert(!ca_set(oldc, j2));
                assert(!ca_set(cur, j2));
            }
        }
    }
}

/// No candidate exists when the `text_case` field's value fails to read.
proof fn lemma_nofield_text_case(s: Seq<u8>, n: int, pos: int, vpos: int, k: int, I: int)
    requires
        I == 0,
        n == s.len(),
        0 <= k <= I < 15,
        8 <= pos,
        pos + 2 + ca_key(I).len() < n,
        vpos == pos + 4 + ca_key(I).len(),
        s[pos] == 44,
        s[pos + 1] == 34,
        s.subrange(pos + 2, pos + 2 + ca_key(I).len() as int) == ca_key(I),
        s[pos + 2 + ca_key(I).len()] == 34,
        s[pos + 3 + ca_key(I).len()] == 58,
        forall|y: CustomApplication|
            y.spec_encode() == s ==> (ca_tail(&y, k) == s.subrange(pos, n)),
        forall|v: i32, end: int| !i32_value_at(s, vpos, v, end),
    ensures
        forall|y: CustomApplication| y.spec_encode() != s,
{
    assert forall|y: CustomApplication| y.spec_encode() != s by {
        if y.spec_encode() == s {
            lemma_candidate_field(&y, s, k, pos, I);
            let xv = y.text_case->Some_0;
            assert(ca_val(&y, I) == enc_int(xv as int));
            lemma_concat_split(s, vpos, enc_int(xv as int), ca_tail(&y, I + 1));
            assert(i32_value_at(s, vpos, xv, vpos + enc_int(xv as int).len() as int));
        }
    }
}

/// One decoding step for the `top_text` field: the consumed bytes extend by
/// exactly this field's encoding, and every candidate carries this field
/// with this value.
#[verifier::rlimit(100)]
proof fn lemma_step_top_text(
    s: Seq<u8>,
    n: int,
    pos: int,
    vpos: int,
    vend: int,
    k: int,
    I: int,
    oldc: &CustomApplication,
    cur: &CustomApplication,
    acc: Seq<u8>,
    v: bool,
)
    requires
        I == 1,
        n == s.len(),
        0 <= k <= I < 15,
        8 <= pos,
        pos + 2 + ca_key(I).len() < n,
        vpos == pos + 4 + ca_key(I).len(),
        s[pos] == 44,
        s[pos + 1] == 34,
        s.subrange(pos + 2, pos + 2 + ca_key(I).len() as int) == ca_key(I),
        s[pos + 2 + ca_key(I).len()] == 34,
        s[pos + 3 + ca_key(I).len()] == 58,
        forall|y: CustomApplication|
            y.spec_encode() == s ==> (ca_tail(&y, k) == s.subrange(pos, n)),
        bool_value_at(s, vpos, v, vend),
        vpos < vend <= n,
        forall|j: int| k <= j < 15 ==> !ca_set(oldc, j),
        ca_tail(oldc, 0) == acc + seq![125u8],
        s.subrange(0, pos) == ca_open() + enc_str(encode_utf8(oldc.text@)) + acc,
        forall|y: CustomApplication|
            y.spec_encode() == s ==> (y.text@ == oldc.text@ && (forall|j2: int|
                0 <= j2 < k ==> ca_field_eq(&y, oldc, j2))),
        cur.text == oldc.text,
        cur.top_text == Some(v),
        cur.text_case == oldc.text_case,
        cur.text_offset == oldc.text_offset,
        cur.center == oldc.center,
        cur.color == oldc.color,
        cur.gradient == oldc.gradient,
        cur.blink_text == oldc.blink_text,
        cur.fade_text == oldc.fade_text,
        cur.background == oldc.background,
        cur.rainbow == oldc.rainbow,
        cur.icon == oldc.icon,
        cur.push_icon == oldc.push_icon,
        cur.repeat == oldc.repeat,
        cur.duration == oldc.duration,
        cur.life_time == oldc.life_time,
    ensures
        forall|j: int| I + 1 <= j < 15 ==> !ca_set(cur, j),
        ca_tail(cur, 0) == (acc + ca_field_at(cur, I)) + seq![125u8],
        s.subrange(0, vend) == ca_open() + enc_str(encode_utf8(cur.text@)) + (acc + ca_field_at(
            cur,
            I,
        )),
        forall|y: CustomApplication|
            y.spec_encode() == s ==> (y.text@ == cur.text@ && (forall|j2: int|
                0 <= j2 < I + 1 ==> ca_field_eq(&y, cur, j2)) && ca_tail(&y, I + 1) == s.subrange(
                vend,
                n,
            )),
{
    assert(ca_set(cur, I));
    assert(ca_val(cur, I) == bool_bytes(v));
    assert forall|i2: int| 0 <= i2 < 15 && i2 != I implies ca_field_at(cur, i2) == ca_field_at(
        oldc,
        i2,
    ) by {}
    assert forall|i2: int| I <= i2 < 15 implies !ca_set(oldc, i2) by {
        assert(!ca_set(oldc, i2));
    }
    assert forall|i2: int| I < i2 < 15 implies !ca_set(cur, i2) by {
        assert(!ca_set(oldc, i2));
    }
    lemma_tail_grow(oldc, cur, I, 0);
    let fb = ca_field_at(cur, I);
    assert((acc + seq![125u8]).take((acc + seq![125u8]).len() - 1) =~= acc);
    assert(ca_tail(cur, 0) =~= (acc + fb) + seq![125u8]);
    assert(s.subrange(vpos, vend) == bool_bytes(v));
    lemma_prefix_extend(s, pos, vend, s.subrange(0, pos), ca_key(I), bool_bytes(v));
    assert(s.subrange(0, vend) =~= ca_open() + enc_str(encode_utf8(cur.text@)) + (acc + fb));
    assert forall|y: CustomApplication|
        y.spec_encode() == s implies (y.text@ == cur.text@ && (forall|j2: int|
        0 <= j2 < I + 1 ==> ca_field_eq(&y, cur, j2)) && ca_tail(&y, I + 1) == s.subrange(
        vend,
        n,
    )) by {
        lemma_candidate_field(&y, s, k, pos, I);
            let xv = y.top_text->Some_0;
            assert(ca_val(&y, I) == bool_bytes(xv));
            lemma_concat_split(s, vpos, bool_bytes(xv), ca_tail(&y, I + 1));
            if xv != v {
                assert(s[vpos] == bool_bytes(xv)[0]);
                assert(s.subrange(vpos, vend)[0] == s[vpos]);
                assert(bool_bytes(v)[0] == s[vpos]);
                assert(false);
            }
            assert(y.top_text == Some(v));
            assert(ca_tail(&y, I + 1) == s.subrange(vend, n));
        assert forall|j2: int| 0 <= j2 < I + 1 implies ca_field_eq(&y, cur, j2) by {
            if j2 < k {
                assert(ca_field_eq(&y, oldc, j2));
            } else if j2 < I {
                assert(!ca_set(&y, j2));
                assert(!ca_set(oldc, j2));
                assert(!ca_set(cur, j2));
            }
        }
    }
}

/// No candidate exists when the `top_text` field's value fails to read.
proof fn lemma_nofield_top_text(s: Seq<u8>, n: int, pos: int, vpos: int, k: int, I: int)
    requires
        I == 1,
        n == s.len(),
        0 <= k <= I < 15,
        8 <= pos,
        pos + 2 + ca_key(I).len() < n,
        vpos == pos + 4 + ca_key(I).len(),
        s[pos] == 44,
        s[pos + 1] == 34,
        s.subrange(pos + 2, pos + 2 + ca_key(I).len() as int) == ca_key(I),
        s[pos + 2 + ca_key(I).len()] == 34,
        s[pos + 3 + ca_key(I).len()] == 58,
        forall|y: CustomApplication|
            y.spec_encode() == s ==> (ca_tail(&y, k) == s.subrange(pos, n)),
        forall|v: bool, end: int| !bool_value_at(s, vpos, v, end),
    ensures
        forall|y: CustomApplication| y.spec_encode() != s,
{
    assert forall|y: CustomApplication| y.spec_encode() != s by {
        if y.spec_encode() == s {
            lemma_candidate_field(&y, s, k, pos, I);
            let xv = y.top_text->Some_0;
            assert(ca_val(&y, I) == bool_bytes(xv));
            lemma_concat_split(s, vpos, bool_bytes(xv), ca_tail(&y, I + 1));
            assert(bool_value_at(s, vpos, xv, vpos + bool_bytes(xv).len() as int));
        }
    }
}

/// One decoding step for the `text_offset` field: the consumed bytes extend by
/// exactly this field's encoding, and every candidate carries this field
/// with this value.
#[verifier::rlimit(100)]
proof fn lemma_step_text_offset(
    s: Seq<u8>,
    n: int,
    pos: int,
    vpos: int,
    vend: int,
    k: int,
    I: int,
    oldc: &CustomApplication,
    cur: &CustomApplication,
    acc: Seq<u8>,
    v: i32,
)
    requires
        I == 2,
        n == s.len(),
        0 <= k <= I < 15,
        8 <= pos,
        pos + 2 + ca_key(I).len() < n,
        vpos == pos + 4 + ca_key(I).len(),
        s[pos] == 44,
        s[pos + 1] == 34,
        s.subrange(pos + 2, pos + 2 + ca_key(I).len() as int) == ca_key(I),
        s[pos + 2 + ca_key(I).len()] == 34,
        s[pos + 3 + ca_key(I).len()] == 58,
        forall|y: CustomApplication|
            y.spec_encode() == s ==> (ca_tail(&y, k) == s.subrange(pos, n)),
        i32_value_at(s, vpos, v, vend),
        vpos < vend <= n,
        forall|j: int| k <= j < 15 ==> !ca_set(oldc, j),
        ca_tail(oldc, 0) == acc + seq![125u8],
        s.subrange(0, pos) == ca_open() + enc_str(encode_utf8(oldc.text@)) + acc,
        forall|y: CustomApplication|
            y.spec_encode() == s ==> (y.text@ == oldc.text@ && (forall|j2: int|
                0 <= j2 < k ==> ca_field_eq(&y, oldc, j2))),
        cur.text == oldc.text,
        cur.text_offset == Some(v),
        cur.text_case == oldc.text_case,
        cur.top_text == oldc.top_text,
        cur.center == oldc.center,
        cur.color == oldc.color,
        cur.gradient == oldc.gradient,
        cur.blink_text == oldc.blink_text,
        cur.fade_text == oldc.fade_text,
        cur.background == oldc.background,
        cur.rainbow == oldc.rainbow,
        cur.icon == oldc.icon,
        cur.push_icon == oldc.push_icon,
        cur.repeat == oldc.repeat,
        cur.duration == oldc.duration,
        cur.life_time == oldc.life_time,
    ensures
        forall|j: int| I + 1 <= j < 15 ==> !ca_set(cur, j),
        ca_tail(cur, 0) == (acc + ca_field_at(cur, I)) + seq![125u8],
        s.subrange(0, vend) == ca_open() + enc_str(encode_utf8(cur.text@)) + (acc + ca_field_at(
            cur,
            I,
        )),
        forall|y: CustomApplication|
            y.spec_encode() == s ==> (y.text@ == cur.text@ && (forall|j2: int|
                0 <= j2 < I + 1 ==> ca_field_eq(&y, cur, j2)) && ca_tail(&y, I + 1) == s.subrange(
                vend,
                n,
            )),
{
    assert(ca_set(cur, I));
    assert(ca_val(cur, I) == enc_int(v as int));
    assert forall|i2: int| 0 <= i2 < 15 && i2 != I implies ca_field_at(cur, i2) == ca_field_at(
        oldc,
        i2,
    ) by {}
    assert forall|i2: int| I <= i2 < 15 implies !ca_set(oldc, i2) by {
        assert(!ca_set(oldc, i2));
    }
    assert forall|i2: int| I < i2 < 15 implies !ca_set(cur, i2) by {
        assert(!ca_set(oldc, i2));
    }
    lemma_tail_grow(oldc, cur, I, 0);
    let fb = ca_field_at(cur, I);
    assert((acc + seq![125u8]).take((acc + seq![125u8]).len() - 1) =~= acc);
    assert(ca_tail(cur, 0) =~= (acc + fb) + seq![125u8]);
    assert(s.subrange(vpos, vend) == enc_int(v as int));
    lemma_prefix_extend(s, pos, vend, s.subrange(0, pos), ca_key(I), enc_int(v as int));
    assert(s.subrange(0, vend) =~= ca_open() + enc_str(encode_utf8(cur.text@)) + (acc + fb));
    assert forall|y: CustomApplication|
        y.spec_encode() == s implies (y.text@ == cur.text@ && (forall|j2: int|
        0 <= j2 < I + 1 ==> ca_field_eq(&y, cur, j2)) && ca_tail(&y, I + 1) == s.subrange(
        vend,
        n,
    )) by {
        lemma_candidate_field(&y, s, k, pos, I);
            let xv = y.text_offset->Some_0;
            assert(ca_val(&y, I) == enc_int(xv as int));
            lemma_concat_split(s, vpos, enc_int(xv as int), ca_tail(&y, I + 1));
            assert(i32_value_at(s, vpos, xv, vpos + enc_int(xv as int).len() as int));
            assert(crate::json::int_at(s, vpos, xv as i64, vpos + enc_int(xv as int).len() as int));
            assert(crate::json::int_at(s, vpos, v as i64, vend));
            crate::json::lemma_int_at_unique(
                s,
                vpos,
                v as i64,
                vend,
                xv as i64,
                vpos + enc_int(xv as int).len() as int,
            );
            assert(y.text_offset == Some(v));
            assert(ca_tail(&y, I + 1) == s.subrange(vend, n));
        assert forall|j2: int| 0 <= j2 < I + 1 implies ca_field_eq(&y, cur, j2) by {
            if j2 < k {
                assert(ca_field_eq(&y, oldc, j2));
            } else if j2 < I {
                assert(!ca_set(&y, j2));
                assert(!ca_set(oldc, j2));
                assert(!ca_set(cur, j2));
            }
        }
    }
}

/// No candidate exists when the `text_offset` field's value fails to read.
proof fn lemma_nofield_text_offset(s: Seq<u8>, n: int, pos: int, vpos: int, k: int, I: int)
    requires
        I == 2,
        n == s.len(),
        0 <= k <= I < 15,
        8 <= pos,
        pos + 2 + ca_key(I).len() < n,
        vpos == pos + 4 + ca_key(I).len(),
        s[pos] == 44,
        s[pos + 1] == 34,
        s.subrange(pos + 2, pos + 2 + ca_key(I).len() as int) == ca_key(I),
        s[pos + 2 + ca_key(I).len()] == 34,
        s[pos + 3 + ca_key(I).len()] == 58,
        forall|y: CustomApplication|
            y.spec_encode() == s ==> (ca_tail(&y, k) == s.subrange(pos, n)),
        forall|v: i32, end: int| !i32_value_at(s, vpos, v, end),
    ensures
        forall|y: CustomApplication| y.spec_encode() != s,
{
    assert forall|y: CustomApplication| y.spec_encode() != s by {
        if y.spec_encode() == s {
            lemma_candidate_field(&y, s, k, pos, I);
            let xv = y.text_offset->Some_0;
            assert(ca_val(&y, I) == enc_int(xv as int));
            lemma_concat_split(s, vpos, enc_int(xv as int), ca_tail(&y, I + 1));
            assert(i32_value_at(s, vpos, xv, vpos + enc_int(xv as int).len() as int));
        }
    }
}

/// One decoding step for the `center` field: the consumed bytes extend by
/// exactly this field's encoding, and every candidate carries this field
/// with this value.
#[verifier::rlimit(100)]
proof fn lemma_step_center(
    s: Seq<u8>,
    n: int,
    pos: int,
    vpos: int,
    vend: int,
    k: int,
    I: int,
    oldc: &CustomApplication,
    cur: &CustomApplication,
    acc: Seq<u8>,
    v: bool,
)
    requires
        I == 3,
        n == s.len(),
        0 <= k <= I < 15,
        8 <= pos,
        pos + 2 + ca_key(I).len() < n,
        vpos == pos + 4 + ca_key(I).len(),
        s[pos] == 44,
        s[pos + 1] == 34,
        s.subrange(pos + 2, pos + 2 + ca_key(I).len() as int) == ca_key(I),
        s[pos + 2 + ca_key(I).len()] == 34,
        s[pos + 3 + ca_key(I).len()] == 58,
        forall|y: CustomApplication|
            y.spec_encode() == s ==> (ca_tail(&y, k) == s.subrange(pos, n)),
        bool_value_at(s, vpos, v, vend),
        vpos < vend <= n,
        forall|j: int| k <= j < 15 ==> !ca_set(oldc, j),
        ca_tail(oldc, 0) == acc + seq![125u8],
        s.subrange(0, pos) == ca_open() + enc_str(encode_utf8(oldc.text@)) + acc,
        forall|y: CustomApplication|
            y.spec_encode() == s ==> (y.text@ == oldc.text@ && (forall|j2: int|
                0 <= j2 < k ==> ca_field_eq(&y, oldc, j2))),
        cur.text == oldc.text,
        cur.center == Some(v),
        cur.text_case == oldc.text_case,
        cur.top_text == oldc.top_text,
        cur.text_offset == oldc.text_offset,
        cur.color == oldc.color,
        cur.gradient == oldc.gradient,
        cur.blink_text == oldc.blink_text,
        cur.fade_text == oldc.fade_text,
        cur.background == oldc.background,
        cur.rainbow == oldc.rainbow,
        cur.icon == oldc.icon,
        cur.push_icon == oldc.push_icon,
        cur.repeat == oldc.repeat,
        cur.duration == oldc.duration,
        cur.life_time == oldc.life_time,
    ensures
        forall|j: int| I + 1 <= j < 15 ==> !ca_set(cur, j),
        ca_tail(cur, 0) == (acc + ca_field_at(cur, I)) + seq![125u8],
        s.subrange(0, vend) == ca_open() + enc_str(encode_utf8(cur.text@)) + (acc + ca_field_at(
            cur,
            I,
        )),
        forall|y: CustomApplication|
            y.spec_encode() == s ==> (y.text@ == cur.text@ && (forall|j2: int|
                0 <= j2 < I + 1 ==> ca_field_eq(&y, cur, j2)) && ca_tail(&y, I + 1) == s.subrange(
                vend,
                n,
            )),
{
    assert(ca_set(cur, I));
    assert(ca_val(cur, I) == bool_bytes(v));
    assert forall|i2: int| 0 <= i2 < 15 && i2 != I implies ca_field_at(cur, i2) == ca_field_at(
        oldc,
        i2,
    ) by {}
    assert forall|i2: int| I <= i2 < 15 implies !ca_set(oldc, i2) by {
        assert(!ca_set(oldc, i2));
    }
    assert forall|i2: int| I < i2 < 15 implies !ca_set(cur, i2) by {
        assert(!ca_set(oldc, i2));
    }
    lemma_tail_grow(oldc, cur, I, 0);
    let fb = ca_field_at(cur, I);
    assert((acc + seq![125u8]).take((acc + seq![125u8]).len() - 1) =~= acc);
    assert(ca_tail(cur, 0) =~= (acc + fb) + seq![125u8]);
    assert(s.subrange(vpos, vend) == bool_bytes(v));
    lemma_prefix_extend(s, pos, vend, s.subrange(0, pos), ca_key(I), bool_bytes(v));
    assert(s.subrange(0, vend) =~= ca_open() + enc_str(encode_utf8(cur.text@)) + (acc + fb));
    assert forall|y: CustomApplication|
        y.spec_encode() == s implies (y.text@ == cur.text@ && (forall|j2: int|
        0 <= j2 < I + 1 ==> ca_field_eq(&y, cur, j2)) && ca_tail(&y, I + 1) == s.subrange(
        vend,
        n,
    )) by {
        lemma_candidate_field(&y, s, k, pos, I);
            let xv = y.center->Some_0;
            assert(ca_val(&y, I) == bool_bytes(xv));
            lemma_concat_split(s, vpos, bool_bytes(xv), ca_tail(&y, I + 1));
            if xv != v {
                assert(s[vpos] == bool_bytes(xv)[0]);
                assert(s.subrange(vpos, vend)[0] == s[vpos]);
                assert(bool_bytes(v)[0] == s[vpos]);
                assert(false);
            }
            assert(y.center == Some(v));
            assert(ca_tail(&y, I + 1) == s.subrange(vend, n));
        assert forall|j2: int| 0 <= j2 < I + 1 implies ca_field_eq(&y, cur, j2) by {
            if j2 < k {
                assert(ca_field_eq(&y, oldc, j2));
            } else if j2 < I {
                assert(!ca_set(&y, j2));
                assert(!ca_set(oldc, j2));
                assert(!ca_set(cur, j2));
            }
        }
    }
}

/// No candidate exists when the `center` field's value fails to read.
proof fn lemma_nofield_center(s: Seq<u8>, n: int, pos: int, vpos: int, k: int, I: int)
    requires
        I == 3,
        n == s.len(),
        0 <= k <= I < 15,
        8 <= pos,
        pos + 2 + ca_key(I).len() < n,
        vpos == pos + 4 + ca_key(I).len(),
        s[pos] == 44,
        s[pos + 1] == 34,
        s.subrange(pos + 2, pos + 2 + ca_key(I).len() as int) == ca_key(I),
        s[pos + 2 + ca_key(I).len()] == 34,
        s[pos + 3 + ca_key(I).len()] == 58,
        forall|y: CustomApplication|
            y.spec_encode() == s ==> (ca_tail(&y, k) == s.subrange(pos, n)),
        forall|v: bool, end: int| !bool_value_at(s, vpos, v, end),
    ensures
        forall|y: CustomApplication| y.spec_encode() != s,
{
    assert forall|y: CustomApplication| y.spec_encode() != s by {
        if y.spec_encode() == s {
            lemma_candidate_field(&y, s, k, pos, I);
            let xv = y.center->Some_0;
            assert(ca_val(&y, I) == bool_bytes(xv));
            lemma_concat_split(s, vpos, bool_bytes(xv), ca_tail(&y, I + 1));
            assert(bool_value_at(s, vpos, xv, vpos + bool_bytes(xv).len() as int));
        }
    }
}

/// One decoding step for the `color` field: the consumed bytes extend by
/// exactly this field's encoding, and every candidate carries this field
/// with this value.
#[verifier::rlimit(100)]
proof fn lemma_step_color(
    s: Seq<u8>,
    n: int,
    pos: int,
    vpos: int,
    vend: int,
    k: int,
    I: int,
    oldc: &CustomApplication,
    cur: &CustomApplication,
    acc: Seq<u8>,
    v: &String,
)
    requires
        I == 4,
        n == s.len(),
        0 <= k <= I < 15,
        8 <= pos,
        pos + 2 + ca_key(I).len() < n,
        vpos == pos + 4 + ca_key(I).len(),
        s[pos] == 44,
        s[pos + 1] == 34,
        s.subrange(pos + 2, pos + 2 + ca_key(I).len() as int) == ca_key(I),
        s[pos + 2 + ca_key(I).len()] == 34,
        s[pos + 3 + ca_key(I).len()] == 58,
        forall|y: CustomApplication|
            y.spec_encode() == s ==> (ca_tail(&y, k) == s.subrange(pos, n)),
        forall|c: Seq<char>, e2: int| str_value_at(s, vpos, c, e2) ==> c == v@ && e2 == vend,
        str_value_at(s, vpos, v@, vend),
        vpos < vend <= n,
        forall|j: int| k <= j < 15 ==> !ca_set(oldc, j),
        ca_tail(oldc, 0) == acc + seq![125u8],
        s.subrange(0, pos) == ca_open() + enc_str(encode_utf8(oldc.text@)) + acc,
        forall|y: CustomApplication|
            y.spec_encode() == s ==> (y.text@ == oldc.text@ && (forall|j2: int|
                0 <= j2 < k ==> ca_field_eq(&y, oldc, j2))),
        cur.text == oldc.text,
        cur.color matches Some(sv) && sv@ == v@,
        cur.text_case == oldc.text_case,
        cur.top_text == oldc.top_text,
        cur.text_offset == oldc.text_offset,
        cur.center == oldc.center,
        cur.gradient == oldc.gradient,
        cur.blink_text == oldc.blink_text,
        cur.fade_text == oldc.fade_text,
        cur.background == oldc.background,
        cur.rainbow == oldc.rainbow,
        cur.icon == oldc.icon,
        cur.push_icon == oldc.push_icon,
        cur.repeat == oldc.repeat,
        cur.duration == oldc.duration,
        cur.life_time == oldc.life_time,
    ensures
        forall|j: int| I + 1 <= j < 15 ==> !ca_set(cur, j),
        ca_tail(cur, 0) == (acc + ca_field_at(cur, I)) + seq![125u8],
        s.subrange(0, vend) == ca_open() + enc_str(encode_utf8(cur.text@)) + (acc + ca_field_at(
            cur,
            I,
        )),
        forall|y: CustomApplication|
            y.spec_encode() == s ==> (y.text@ == cur.text@ && (forall|j2: int|
                0 <= j2 < I + 1 ==> ca_field_eq(&y, cur, j2)) && ca_tail(&y, I + 1) == s.subrange(
                vend,
                n,
            )),
{
    assert(ca_set(cur, I));
    assert(ca_val(cur, I) == enc_str(encode_utf8(v@)));
    assert forall|i2: int| 0 <= i2 < 15 && i2 != I implies ca_field_at(cur, i2) == ca_field_at(
        oldc,
        i2,
    ) by {}
    assert forall|i2: int| I <= i2 < 15 implies !ca_set(oldc, i2) by {
        assert(!ca_set(oldc, i2));
    }
    assert forall|i2: int| I < i2 < 15 implies !ca_set(cur, i2) by {
        assert(!ca_set(oldc, i2));
    }
    lemma_tail_grow(oldc, cur, I, 0);
    let fb = ca_field_at(cur, I);
    assert((acc + seq![125u8]).take((acc + seq![125u8]).len() - 1) =~= acc);
    assert(ca_tail(cur, 0) =~= (acc + fb) + seq![125u8]);
    assert(s.subrange(vpos, vend) == enc_str(encode_utf8(v@)));
    lemma_prefix_extend(s, pos, vend, s.subrange(0, pos), ca_key(I), enc_str(encode_utf8(v@)));
    assert(s.subrange(0, vend) =~= ca_open() + enc_str(encode_utf8(cur.text@)) + (acc + fb));
    assert forall|y: CustomApplication|
        y.spec_encode() == s implies (y.text@ == cur.text@ && (forall|j2: int|
        0 <= j2 < I + 1 ==> ca_field_eq(&y, cur, j2)) && ca_tail(&y, I + 1) == s.subrange(
        vend,
        n,
    )) by {
        lemma_candidate_field(&y, s, k, pos, I);
            let xv = y.color->Some_0;
            assert(ca_val(&y, I) == enc_str(encode_utf8(xv@)));
            lemma_concat_split(s, vpos, enc_str(encode_utf8(xv@)), ca_tail(&y, I + 1));
            assert(str_value_at(s, vpos, xv@, vpos + enc_str(encode_utf8(xv@)).len() as int));
            assert(xv@ == v@ && vpos + enc_str(encode_utf8(xv@)).len() == vend);
            assert(ca_tail(&y, I + 1) == s.subrange(vend, n));
        assert forall|j2: int| 0 <= j2 < I + 1 implies ca_field_eq(&y, cur, j2) by {
            if j2 < k {
                assert(ca_field_eq(&y, oldc, j2));
            } else if j2 < I {
                assert(!ca_set(&y, j2));
                assert(!ca_set(oldc, j2));
                assert(!ca_set(cur, j2));
            }
        }
    }
}

/// No candidate exists when the `color` field's value fails to read.
proof fn lemma_nofield_color(s: Seq<u8>, n: int, pos: int, vpos: int, k: int, I: int)
    requires
        I == 4,
        n == s.len(),
        0 <= k <= I < 15,
        8 <= pos,
        pos + 2 + ca_key(I).len() < n,
        vpos == pos + 4 + ca_key(I).len(),
        s[pos] == 44,
        s[pos + 1] == 34,
        s.subrange(pos + 2, pos + 2 + ca_key(I).len() as int) == ca_key(I),
        s[pos + 2 + ca_key(I).len()] == 34,
        s[pos + 3 + ca_key(I).len()] == 58,
        forall|y: CustomApplication|
            y.spec_encode() == s ==> (ca_tail(&y, k) == s.subrange(pos, n)),
        forall|v: Seq<char>, end: int| !str_value_at(s, vpos, v, end),
    ensures
        forall|y: CustomApplication| y.spec_encode() != s,
{
    assert forall|y: CustomApplication| y.spec_encode() != s by {
        if y.spec_encode() == s {
            lemma_candidate_field(&y, s, k, pos, I);
            let xv = y.color->Some_0;
            assert(ca_val(&y, I) == enc_str(encode_utf8(xv@)));
            lemma_concat_split(s, vpos, enc_str(encode_utf8(xv@)), ca_tail(&y, I + 1));
            assert(str_value_at(s, vpos, xv@, vpos + enc_str(encode_utf8(xv@)).len() as int));
        }
    }
}

/// One decoding step for the `gradient` field: the consumed bytes extend by
/// exactly this field's encoding, and every candidate carries this field
/// with this value.
#[verifier::rlimit(100)]
proof fn lemma_step_gradient(
    s: Seq<u8>,
    n: int,
    pos: int,
    vpos: int,
    vend: int,
    k: int,
    I: int,
    oldc: &CustomApplication,
    cur: &CustomApplication,
    acc: Seq<u8>,
    v: &String,
)
    requires
        I == 5,
        n == s.len(),
        0 <= k <= I < 15,
        8 <= pos,
        pos + 2 + ca_key(I).len() < n,
        vpos == pos + 4 + ca_key(I).len(),
        s[pos] == 44,
        s[pos + 1] == 34,
        s.subrange(pos + 2, pos + 2 + ca_key(I).len() as int) == ca_key(I),
        s[pos + 2 + ca_key(I).len()] == 34,
        s[pos + 3 + ca_key(I).len()] == 58,
        forall|y: CustomApplication|
            y.spec_encode() == s ==> (ca_tail(&y, k) == s.subrange(pos, n)),
        forall|c: Seq<char>, e2: int| str_value_at(s, vpos, c, e2) ==> c == v@ && e2 == vend,
        str_value_at(s, vpos, v@, vend),
        vpos < vend <= n,
        forall|j: int| k <= j < 15 ==> !ca_set(oldc, j),
        ca_tail(oldc, 0) == acc + seq![125u8],
        s.subrange(0, pos) == ca_open() + enc_str(encode_utf8(oldc.text@)) + acc,
        forall|y: CustomApplication|
            y.spec_encode() == s ==> (y.text@ == oldc.text@ && (forall|j2: int|
                0 <= j2 < k ==> ca_field_eq(&y, oldc, j2))),
        cur.text == oldc.text,
        cur.gradient matches Some(sv) && sv@ == v@,
        cur.text_case == oldc.text_case,
        cur.top_text == oldc.top_text,
        cur.text_offset == oldc.text_offset,
        cur.center == oldc.center,
        cur.color == oldc.color,
        cur.blink_text == oldc.blink_text,
        cur.fade_text == oldc.fade_text,
        cur.background == oldc.background,
        cur.rainbow == oldc.rainbow,
        cur.icon == oldc.icon,
        cur.push_icon == oldc.push_icon,
        cur.repeat == oldc.repeat,
        cur.duration == oldc.duration,
        cur.life_time == oldc.life_time,
    ensures
        forall|j: int| I + 1 <= j < 15 ==> !ca_set(cur, j),
        ca_tail(cur, 0) == (acc + ca_field_at(cur, I)) + seq![125u8],
        s.subrange(0, vend) == ca_open() + enc_str(encode_utf8(cur.text@)) + (acc + ca_field_at(
            cur,
            I,
        )),
        forall|y: CustomApplication|
            y.spec_encode() == s ==> (y.text@ == cur.text@ && (forall|j2: int|
                0 <= j2 < I + 1 ==> ca_field_eq(&y, cur, j2)) && ca_tail(&y, I + 1) == s.subrange(
                vend,
                n,
            )),
{
    assert(ca_set(cur, I));
    assert(ca_val(cur, I) == enc_str(encode_utf8(v@)));
    assert forall|i2: int| 0 <= i2 < 15 && i2 != I implies ca_field_at(cur, i2) == ca_field_at(
        oldc,
        i2,
    ) by {}
    assert forall|i2: int| I <= i2 < 15 implies !ca_set(oldc, i2) by {
        assert(!ca_set(oldc, i2));
    }
    assert forall|i2: int| I < i2 < 15 implies !ca_set(cur, i2) by {
        assert(!ca_set(oldc, i2));
    }
    lemma_tail_grow(oldc, cur, I, 0);
    let fb = ca_field_at(cur, I);
    assert((acc + seq![125u8]).take((acc + seq![125u8]).len() - 1) =~= acc);
    assert(ca_tail(cur, 0) =~= (acc + fb) + seq![125u8]);
    assert(s.subrange(vpos, vend) == enc_str(encode_utf8(v@)));
    lemma_prefix_extend(s, pos, vend, s.subrange(0, pos), ca_key(I), enc_str(encode_utf8(v@)));
    assert(s.subrange(0, vend) =~= ca_open() + enc_str(encode_utf8(cur.text@)) + (acc + fb));
    assert forall|y: CustomApplication|
        y.spec_encode() == s implies (y.text@ == cur.text@ && (forall|j2: int|
        0 <= j2 < I + 1 ==> ca_field_eq(&y, cur, j2)) && ca_tail(&y, I + 1) == s.subrange(
        vend,
        n,
    )) by {
        lemma_candidate_field(&y, s, k, pos, I);
            let xv = y.gradient->Some_0;
            assert(ca_val(&y, I) == enc_str(encode_utf8(xv@)));
            lemma_concat_split(s, vpos, enc_str(encode_utf8(xv@)), ca_tail(&y, I + 1));
            assert(str_value_at(s, vpos, xv@, vpos + enc_str(encode_utf8(xv@)).len() as int));
            assert(xv@ == v@ && vpos + enc_str(encode_utf8(xv@)).len() == vend);
            assert(ca_tail(&y, I + 1) == s.subrange(vend, n));
        assert forall|j2: int| 0 <= j2 < I + 1 implies ca_field_eq(&y, cur, j2) by {
            if j2 < k {
                assert(ca_field_eq(&y, oldc, j2));
            } else if j2 < I {
                assert(!ca_set(&y, j2));
                assert(!ca_set(oldc, j2));
                assert(!ca_set(cur, j2));
            }
        }
    }
}

/// No candidate exists when the `gradient` field's value fails to read.
proof fn lemma_nofield_gradient(s: Seq<u8>, n: int, pos: int, vpos: int, k: int, I: int)
    requires
        I == 5,
        n == s.len(),
        0 <= k <= I < 15,
        8 <= pos,
        pos + 2 + ca_key(I).len() < n,
        vpos == pos + 4 + ca_key(I).len(),
        s[pos] == 44,
        s[pos + 1] == 34,
        s.subrange(pos + 2, pos + 2 + ca_key(I).len() as int) == ca_key(I),
        s[pos + 2 + ca_key(I).len()] == 34,
        s[pos + 3 + ca_key(I).len()] == 58,
        forall|y: CustomApplication|
            y.spec_encode() == s ==> (ca_tail(&y, k) == s.subrange(pos, n)),
        forall|v: Seq<char>, end: int| !str_value_at(s, vpos, v, end),
    ensures
        forall|y: CustomApplication| y.spec_encode() != s,
{
    assert forall|y: CustomApplication| y.spec_encode() != s by {
        if y.spec_encode() == s {
            lemma_candidate_field(&y, s, k, pos, I);
            let xv = y.gradient->Some_0;
            assert(ca_val(&y, I) == enc_str(encode_utf8(xv@)));
            lemma_concat_split(s, vpos, enc_str(encode_utf8(xv@)), ca_tail(&y, I + 1));
            assert(str_value_at(s, vpos, xv@, vpos + enc_str(encode_utf8(xv@)).len() as int));
        }
    }
}

/// One decoding step for the `blink_text` field: the consumed bytes extend by
/// exactly this field's encoding, and every candidate carries this field
/// with this value.
#[verifier::rlimit(100)]
proof fn lemma_step_blink_text(
    s: Seq<u8>,
    n: int,
    pos: int,
    vpos: int,
    vend: int,
    k: int,
    I: int,
    oldc: &CustomApplication,
    cur: &CustomApplication,
    acc: Seq<u8>,
    v: i32,
)
    requires
        I == 6,
        n == s.len(),
        0 <= k <= I < 15,
        8 <= pos,
        pos + 2 + ca_key(I).len() < n,
        vpos == pos + 4 + ca_key(I).len(),
        s[pos] == 44,
        s[pos + 1] == 34,
        s.subrange(pos + 2, pos + 2 + ca_key(I).len() as int) == ca_key(I),
        s[pos + 2 + ca_key(I).len()] == 34,
        s[pos + 3 + ca_key(I).len()] == 58,
        forall|y: CustomApplication|
            y.spec_encode() == s ==> (ca_tail(&y, k) == s.subrange(pos, n)),
        i32_value_at(s, vpos, v, vend),
        vpos < vend <= n,
        forall|j: int| k <= j < 15 ==> !ca_set(oldc, j),
        ca_tail(oldc, 0) == acc + seq![125u8],
        s.subrange(0, pos) == ca_open() + enc_str(encode_utf8(oldc.text@)) + acc,
        forall|y: CustomApplication|
            y.spec_encode() == s ==> (y.text@ == oldc.text@ && (forall|j2: int|
                0 <= j2 < k ==> ca_field_eq(&y, oldc, j2))),
        cur.text == oldc.text,
        cur.blink_text == Some(v),
        cur.text_case == oldc.text_case,
        cur.top_text == oldc.top_text,
        cur.text_offset == oldc.text_offset,
        cur.center == oldc.center,
        cur.color == oldc.color,
        cur.gradient == oldc.gradient,
        cur.fade_text == oldc.fade_text,
        cur.background == oldc.background,
        cur.rainbow == oldc.rainbow,
        cur.icon == oldc.icon,
        cur.push_icon == oldc.push_icon,
        cur.repeat == oldc.repeat,
        cur.duration == oldc.duration,
        cur.life_time == oldc.life_time,
    ensures
        forall|j: int| I + 1 <= j < 15 ==> !ca_set(cur, j),
        ca_tail(cur, 0) == (acc + ca_field_at(cur, I)) + seq![125u8],
        s.subrange(0, vend) == ca_open() + enc_str(encode_utf8(cur.text@)) + (acc + ca_field_at(
            cur,
            I,
        )),
        forall|y: CustomApplication|
            y.spec_encode() == s ==> (y.text@ == cur.text@ && (forall|j2: int|
                0 <= j2 < I + 1 ==> ca_field_eq(&y, cur, j2)) && ca_tail(&y, I + 1) == s.subrange(
                vend,
                n,
            )),
{
    assert(ca_set(cur, I));
    assert(ca_val(cur, I) == enc_int(v as int));
    assert forall|i2: int| 0 <= i2 < 15 && i2 != I implies ca_field_at(cur, i2) == ca_field_at(
        oldc,
        i2,
    ) by {}
    assert forall|i2: int| I <= i2 < 15 implies !ca_set(oldc, i2) by {
        assert(!ca_set(oldc, i2));
    }
    assert forall|i2: int| I < i2 < 15 implies !ca_set(cur, i2) by {
        assert(!ca_set(oldc, i2));
    }
    lemma_tail_grow(oldc, cur, I, 0);
    let fb = ca_field_at(cur, I);
    assert((acc + seq![125u8]).take((acc + seq![125u8]).len() - 1) =~= acc);
    assert(ca_tail(cur, 0) =~= (acc + fb) + seq![125u8]);
    assert(s.subrange(vpos, vend) == enc_int(v as int));
    lemma_prefix_extend(s, pos, vend, s.subrange(0, pos), ca_key(I), enc_int(v as int));
    assert(s.subrange(0, vend) =~= ca_open() + enc_str(encode_utf8(cur.text@)) + (acc + fb));
    assert forall|y: CustomApplication|
        y.spec_encode() == s implies (y.text@ == cur.text@ && (forall|j2: int|
        0 <= j2 < I + 1 ==> ca_field_eq(&y, cur, j2)) && ca_tail(&y, I + 1) == s.subrange(
        vend,
        n,
    )) by {
        lemma_candidate_field(&y, s, k, pos, I);
            let xv = y.blink_text->Some_0;
            assert(ca_val(&y, I) == enc_int(xv as int));
            lemma_concat_split(s, vpos, enc_int(xv as int), ca_tail(&y, I + 1));
            assert(i32_value_at(s, vpos, xv, vpos + enc_int(xv as int).len() as int));
            assert(crate::json::int_at(s, vpos, xv as i64, vpos + enc_int(xv as int).len() as int));
            assert(crate::json::int_at(s, vpos, v as i64, vend));
            crate::json::lemma_int_at_unique(
                s,
                vpos,
                v as i64,
                vend,
                xv as i64,
                vpos + enc_int(xv as int).len() as int,
            );
            assert(y.blink_text == Some(v));
            assert(ca_tail(&y, I + 1) == s.subrange(vend, n));
        assert forall|j2: int| 0 <= j2 < I + 1 implies ca_field_eq(&y, cur, j2) by {
            if j2 < k {
                assert(ca_field_eq(&y, oldc, j2));
            } else if j2 < I {
                assert(!ca_set(&y, j2));
                assert(!ca_set(oldc, j2));
                assert(!ca_set(cur, j2));
            }
        }
    }
}

/// No candidate exists when the `blink_text` field's value fails to read.
proof fn lemma_nofield_blink_text(s: Seq<u8>, n: int, pos: int, vpos: int, k: int, I: int)
    requires
        I == 6,
        n == s.len(),
        0 <= k <= I < 15,
        8 <= pos,
        pos + 2 + ca_key(I).len() < n,
        vpos == pos + 4 + ca_key(I).len(),
        s[pos] == 44,
        s[pos + 1] == 34,
        s.subrange(pos + 2, pos + 2 + ca_key(I).len() as int) == ca_key(I),
        s[pos + 2 + ca_key(I).len()] == 34,
        s[pos + 3 + ca_key(I).len()] == 58,
        forall|y: CustomApplication|
            y.spec_encode() == s ==> (ca_tail(&y, k) == s.subrange(pos, n)),
        forall|v: i32, end: int| !i32_value_at(s, vpos, v, end),
    ensures
        forall|y: CustomApplication| y.spec_encode() != s,
{
    assert forall|y: CustomApplication| y.spec_encode() != s by {
        if y.spec_encode() == s {
            lemma_candidate_field(&y, s, k, pos, I);
            let xv = y.blink_text->Some_0;
            assert(ca_val(&y, I) == enc_int(xv as int));
            lemma_concat_split(s, vpos, enc_int(xv as int), ca_tail(&y, I + 1));
            assert(i32_value_at(s, vpos, xv, vpos + enc_int(xv as int).len() as int));
        }
    }
}

/// One decoding step for the `fade_text` field: the consumed bytes extend by
/// exactly this field's encoding, and every candidate carries this field
/// with this value.
#[verifier::rlimit(100)]
proof fn lemma_step_fade_text(
    s: Seq<u8>,
    n: int,
    pos: int,
    vpos: int,
    vend: int,
    k: int,
    I: int,
    oldc: &CustomApplication,
    cur: &CustomApplication,
    acc: Seq<u8>,
    v: i32,
)
    requires
        I == 7,
        n == s.len(),
        0 <= k <= I < 15,
        8 <= pos,
        pos + 2 + ca_key(I).len() < n,
        vpos == pos + 4 + ca_key(I).len(),
        s[pos] == 44,
        s[pos + 1] == 34,
        s.subrange(pos + 2, pos + 2 + ca_key(I).len() as int) == ca_key(I),
        s[pos + 2 + ca_key(I).len()] == 34,
        s[pos + 3 + ca_key(I).len()] == 58,
        forall|y: CustomApplication|
            y.spec_encode() == s ==> (ca_tail(&y, k) == s.subrange(pos, n)),
        i32_value_at(s, vpos, v, vend),
        vpos < vend <= n,
        forall|j: int| k <= j < 15 ==> !ca_set(oldc, j),
        ca_tail(oldc, 0) == acc + seq![125u8],
        s.subrange(0, pos) == ca_open() + enc_str(encode_utf8(oldc.text@)) + acc,
        forall|y: CustomApplication|
            y.spec_encode() == s ==> (y.text@ == oldc.text@ && (forall|j2: int|
                0 <= j2 < k ==> ca_field_eq(&y, oldc, j2))),
        cur.text == oldc.text,
        cur.fade_text == Some(v),
        cur.text_case == oldc.text_case,
        cur.top_text == oldc.top_text,
        cur.text_offset == oldc.text_offset,
        cur.center == oldc.center,
        cur.color == oldc.color,
        cur.gradient == oldc.gradient,
        cur.blink_text == oldc.blink_text,
        cur.background == oldc.background,
        cur.rainbow == oldc.rainbow,
        cur.icon == oldc.icon,
        cur.push_icon == oldc.push_icon,
        cur.repeat == oldc.repeat,
        cur.duration == oldc.duration,
        cur.life_time == oldc.life_time,
    ensures
        forall|j: int| I + 1 <= j < 15 ==> !ca_set(cur, j),
        ca_tail(cur, 0) == (acc + ca_field_at(cur, I)) + seq![125u8],
        s.subrange(0, vend) == ca_open() + enc_str(encode_utf8(cur.text@)) + (acc + ca_field_at(
            cur,
            I,
        )),
        forall|y: CustomApplication|
            y.spec_encode() == s ==> (y.text@ == cur.text@ && (forall|j2: int|
                0 <= j2 < I + 1 ==> ca_field_eq(&y, cur, j2)) && ca_tail(&y, I + 1) == s.subrange(
                vend,
                n,
            )),
{
    assert(ca_set(cur, I));
    assert(ca_val(cur, I) == enc_int(v as int));
    assert forall|i2: int| 0 <= i2 < 15 && i2 != I implies ca_field_at(cur, i2) == ca_field_at(
        oldc,
        i2,
    ) by {}
    assert forall|i2: int| I <= i2 < 15 implies !ca_set(oldc, i2) by {
        assert(!ca_set(oldc, i2));
    }
    assert forall|i2: int| I < i2 < 15 implies !ca_set(cur, i2) by {
        assert(!ca_set(oldc, i2));
    }
    lemma_tail_grow(oldc, cur, I, 0);
    let fb = ca_field_at(cur, I);
    assert((acc + seq![125u8]).take((acc + seq![125u8]).len() - 1) =~= acc);
    assert(ca_tail(cur, 0) =~= (acc + fb) + seq![125u8]);
    assert(s.subrange(vpos, vend) == enc_int(v as int));
    lemma_prefix_extend(s, pos, vend, s.subrange(0, pos), ca_key(I), enc_int(v as int));
    assert(s.subrange(0, vend) =~= ca_open() + enc_str(encode_utf8(cur.text@)) + (acc + fb));
    assert forall|y: CustomApplication|
        y.spec_encode() == s implies (y.text@ == cur.text@ && (forall|j2: int|
        0 <= j2 < I + 1 ==> ca_field_eq(&y, cur, j2)) && ca_tail(&y, I + 1) == s.subrange(
        vend,
        n,
    )) by {
        lemma_candidate_field(&y, s, k, pos, I);
            let xv = y.fade_text->Some_0;
            assert(ca_val(&y, I) == enc_int(xv as int));
            lemma_concat_split(s, vpos, enc_int(xv as int), ca_tail(&y, I + 1));
            assert(i32_value_at(s, vpos, xv, vpos + enc_int(xv as int).len() as int));
            assert(crate::json::int_at(s, vpos, xv as i64, vpos + enc_int(xv as int).len() as int));
            assert(crate::json::int_at(s, vpos, v as i64, vend));
            crate::json::lemma_int_at_unique(
                s,
                vpos,
                v as i64,
                vend,
                xv as i64,
                vpos + enc_int(xv as int).len() as int,
            );
            assert(y.fade_text == Some(v));
            assert(ca_tail(&y, I + 1) == s.subrange(vend, n));
        assert forall|j2: int| 0 <= j2 < I + 1 implies ca_field_eq(&y, cur, j2) by {
            if j2 < k {
                assert(ca_field_eq(&y, oldc, j2));
            } else if j2 < I {
                assert(!ca_set(&y, j2));
                assert(!ca_set(oldc, j2));
                assert(!ca_set(cur, j2));
            }
        }
    }
}

/// No candidate exists when the `fade_text` field's value fails to read.
proof fn lemma_nofield_fade_text(s: Seq<u8>, n: int, pos: int, vpos: int, k: int, I: int)
    requires
        I == 7,
        n == s.len(),
        0 <= k <= I < 15,
        8 <= pos,
        pos + 2 + ca_key(I).len() < n,
        vpos == pos + 4 + ca_key(I).len(),
        s[pos] == 44,
        s[pos + 1] == 34,
        s.subrange(pos + 2, pos + 2 + ca_key(I).len() as int) == ca_key(I),
        s[pos + 2 + ca_key(I).len()] == 34,
        s[pos + 3 + ca_key(I).len()] == 58,
        forall|y: CustomApplication|
            y.spec_encode() == s ==> (ca_tail(&y, k) == s.subrange(pos, n)),
        forall|v: i32, end: int| !i32_value_at(s, vpos, v, end),
    ensures
        forall|y: CustomApplication| y.spec_encode() != s,
{
    assert forall|y: CustomApplication| y.spec_encode() != s by {
        if y.spec_encode() == s {
            lemma_candidate_field(&y, s, k, pos, I);
            let xv = y.fade_text->Some_0;
            assert(ca_val(&y, I) == enc_int(xv as int));
            lemma_concat_split(s, vpos, enc_int(xv as int), ca_tail(&y, I + 1));
            assert(i32_value_at(s, vpos, xv, vpos + enc_int(xv as int).len() as int));
        }
    }
}

/// One decoding step for the `background` field: the consumed bytes extend by
/// exactly this field's encoding, and every candidate carries this field
/// with this value.
#[verifier::rlimit(100)]
proof fn lemma_step_background(
    s: Seq<u8>,
    n: int,
    pos: int,
    vpos: int,
    vend: int,
    k: int,
    I: int,
    oldc: &CustomApplication,
    cur: &CustomApplication,
    acc: Seq<u8>,
    v: &String,
)
    requires
        I == 8,
        n == s.len(),
        0 <= k <= I < 15,
        8 <= pos,
        pos + 2 + ca_key(I).len() < n,
        vpos == pos + 4 + ca_key(I).len(),
        s[pos] == 44,
        s[pos + 1] == 34,
        s.subrange(pos + 2, pos + 2 + ca_key(I).len() as int) == ca_key(I),
        s[pos + 2 + ca_key(I).len()] == 34,
        s[pos + 3 + ca_key(I).len()] == 58,
        forall|y: CustomApplication|
            y.spec_encode() == s ==> (ca_tail(&y, k) == s.subrange(pos, n)),
        forall|c: Seq<char>, e2: int| str_value_at(s, vpos, c, e2) ==> c == v@ && e2 == vend,
        str_value_at(s, vpos, v@, vend),
        vpos < vend <= n,
        forall|j: int| k <= j < 15 ==> !ca_set(oldc, j),
        ca_tail(oldc, 0) == acc + seq![125u8],
        s.subrange(0, pos) == ca_open() + enc_str(encode_utf8(oldc.text@)) + acc,
        forall|y: CustomApplication|
            y.spec_encode() == s ==> (y.text@ == oldc.text@ && (forall|j2: int|
                0 <= j2 < k ==> ca_field_eq(&y, oldc, j2))),
        cur.text == oldc.text,
        cur.background matches Some(sv) && sv@ == v@,
        cur.text_case == oldc.text_case,
        cur.top_text == oldc.top_text,
        cur.text_offset == oldc.text_offset,
        cur.center == oldc.center,
        cur.color == oldc.color,
        cur.gradient == oldc.gradient,
        cur.blink_text == oldc.blink_text,
        cur.fade_text == oldc.fade_text,
        cur.rainbow == oldc.rainbow,
        cur.icon == oldc.icon,
        cur.push_icon == oldc.push_icon,
        cur.repeat == oldc.repeat,
        cur.duration == oldc.duration,
        cur.life_time == oldc.life_time,
    ensures
        forall|j: int| I + 1 <= j < 15 ==> !ca_set(cur, j),
        ca_tail(cur, 0) == (acc + ca_field_at(cur, I)) + seq![125u8],
        s.subrange(0, vend) == ca_open() + enc_str(encode_utf8(cur.text@)) + (acc + ca_field_at(
            cur,
            I,
        )),
        forall|y: CustomApplication|
            y.spec_encode() == s ==> (y.text@ == cur.text@ && (forall|j2: int|
                0 <= j2 < I + 1 ==> ca_field_eq(&y, cur, j2)) && ca_tail(&y, I + 1) == s.subrange(
                vend,
                n,
            )),
{
    assert(ca_set(cur, I));
    assert(ca_val(cur, I) == enc_str(encode_utf8(v@)));
    assert forall|i2: int| 0 <= i2 < 15 && i2 != I implies ca_field_at(cur, i2) == ca_field_at(
        oldc,
        i2,
    ) by {}
    assert forall|i2: int| I <= i2 < 15 implies !ca_set(oldc, i2) by {
        assert(!ca_set(oldc, i2));
    }
    assert forall|i2: int| I < i2 < 15 implies !ca_set(cur, i2) by {
        assert(!ca_set(oldc, i2));
    }
    lemma_tail_grow(oldc, cur, I, 0);
    let fb = ca_field_at(cur, I);
    assert((acc + seq![125u8]).take((acc + seq![125u8]).len() - 1) =~= acc);
    assert(ca_tail(cur, 0) =~= (acc + fb) + seq![125u8]);
    assert(s.subrange(vpos, vend) == enc_str(encode_utf8(v@)));
    lemma_prefix_extend(s, pos, vend, s.subrange(0, pos), ca_key(I), enc_str(encode_utf8(v@)));
    assert(s.subrange(0, vend) =~= ca_open() + enc_str(encode_utf8(cur.text@)) + (acc + fb));
    assert forall|y: CustomApplication|
        y.spec_encode() == s implies (y.text@ == cur.text@ && (forall|j2: int|
        0 <= j2 < I + 1 ==> ca_field_eq(&y, cur, j2)) && ca_tail(&y, I + 1) == s.subrange(
        vend,
        n,
    )) by {
        lemma_candidate_field(&y, s, k, pos, I);
            let xv = y.background->Some_0;
            assert(ca_val(&y, I) == enc_str(encode_utf8(xv@)));
            lemma_concat_split(s, vpos, enc_str(encode_utf8(xv@)), ca_tail(&y, I + 1));
            assert(str_value_at(s, vpos, xv@, vpos + enc_str(encode_utf8(xv@)).len() as int));
            assert(xv@ == v@ && vpos + enc_str(encode_utf8(xv@)).len() == vend);
            assert(ca_tail(&y, I + 1) == s.subrange(vend, n));
        assert forall|j2: int| 0 <= j2 < I + 1 implies ca_field_eq(&y, cur, j2) by {
            if j2 < k {
                assert(ca_field_eq(&y, oldc, j2));
            } else if j2 < I {
                assert(!ca_set(&y, j2));
                assert(!ca_set(oldc, j2));
                assert(!ca_set(cur, j2));
            }
        }
    }
}

/// No candidate exists when the `background` field's value fails to read.
proof fn lemma_nofield_background(s: Seq<u8>, n: int, pos: int, vpos: int, k: int, I: int)
    requires
        I == 8,
        n == s.len(),
        0 <= k <= I < 15,
        8 <= pos,
        pos + 2 + ca_key(I).len() < n,
        vpos == pos + 4 + ca_key(I).len(),
        s[pos] == 44,
        s[pos + 1] == 34,
        s.subrange(pos + 2, pos + 2 + ca_key(I).len() as int) == ca_key(I),
        s[pos + 2 + ca_key(I).len()] == 34,
        s[pos + 3 + ca_key(I).len()] == 58,
        forall|y: CustomApplication|
            y.spec_encode() == s ==> (ca_tail(&y, k) == s.subrange(pos, n)),
        forall|v: Seq<char>, end: int| !str_value_at(s, vpos, v, end),
    ensures
        forall|y: CustomApplication| y.spec_encode() != s,
{
    assert forall|y: CustomApplication| y.spec_encode() != s by {
        if y.spec_encode() == s {
            lemma_candidate_field(&y, s, k, pos, I);
            let xv = y.background->Some_0;
            assert(ca_val(&y, I) == enc_str(encode_utf8(xv@)));
            lemma_concat_split(s, vpos, enc_str(encode_utf8(xv@)), ca_tail(&y, I + 1));
            assert(str_value_at(s, vpos, xv@, vpos + enc_str(encode_utf8(xv@)).len() as int));
        }
    }
}

/// One decoding step for the `rainbow` field: the consumed bytes extend by
/// exactly this field's encoding, and every candidate carries this field
/// with this value.
#[verifier::rlimit(100)]
proof fn lemma_step_rainbow(
    s: Seq<u8>,
    n: int,
    pos: int,
    vpos: int,
    vend: int,
    k: int,
    I: int,
    oldc: &CustomApplication,
    cur: &CustomApplication,
    acc: Seq<u8>,
    v: bool,
)
    requires
        I == 9,
        n == s.len(),
        0 <= k <= I < 15,
        8 <= pos,
        pos + 2 + ca_key(I).len() < n,
        vpos == pos + 4 + ca_key(I).len(),
        s[pos] == 44,
        s[pos + 1] == 34,
        s.subrange(pos + 2, pos + 2 + ca_key(I).len() as int) == ca_key(I),
        s[pos + 2 + ca_key(I).len()] == 34,
        s[pos + 3 + ca_key(I).len()] == 58,
        forall|y: CustomApplication|
            y.spec_encode() == s ==> (ca_tail(&y, k) == s.subrange(pos, n)),
        bool_value_at(s, vpos, v, vend),
        vpos < vend <= n,
        forall|j: int| k <= j < 15 ==> !ca_set(oldc, j),
        ca_tail(oldc, 0) == acc + seq![125u8],
        s.subrange(0, pos) == ca_open() + enc_str(encode_utf8(oldc.text@)) + acc,
        forall|y: CustomApplication|
            y.spec_encode() == s ==> (y.text@ == oldc.text@ && (forall|j2: int|
                0 <= j2 < k ==> ca_field_eq(&y, oldc, j2))),
        cur.text == oldc.text,
        cur.rainbow == Some(v),
        cur.text_case == oldc.text_case,
        cur.top_text == oldc.top_text,
        cur.text_offset == oldc.text_offset,
        cur.center == oldc.center,
        cur.color == oldc.color,
        cur.gradient == oldc.gradient,
        cur.blink_text == oldc.blink_text,
        cur.fade_text == oldc.fade_text,
        cur.background == oldc.background,
        cur.icon == oldc.icon,
        cur.push_icon == oldc.push_icon,
        cur.repeat == oldc.repeat,
        cur.duration == oldc.duration,
        cur.life_time == oldc.life_time,
    ensures
        forall|j: int| I + 1 <= j < 15 ==> !ca_set(cur, j),
        ca_tail(cur, 0) == (acc + ca_field_at(cur, I)) + seq![125u8],
        s.subrange(0, vend) == ca_open() + enc_str(encode_utf8(cur.text@)) + (acc + ca_field_at(
            cur,
            I,
        )),
        forall|y: CustomApplication|
            y.spec_encode() == s ==> (y.text@ == cur.text@ && (forall|j2: int|
                0 <= j2 < I + 1 ==> ca_field_eq(&y, cur, j2)) && ca_tail(&y, I + 1) == s.subrange(
                vend,
                n,
            )),
{
    assert(ca_set(cur, I));
    assert(ca_val(cur, I) == bool_bytes(v));
    assert forall|i2: int| 0 <= i2 < 15 && i2 != I implies ca_field_at(cur, i2) == ca_field_at(
        oldc,
        i2,
    ) by {}
    assert forall|i2: int| I <= i2 < 15 implies !ca_set(oldc, i2) by {
        assert(!ca_set(oldc, i2));
    }
    assert forall|i2: int| I < i2 < 15 implies !ca_set(cur, i2) by {
        assert(!ca_set(oldc, i2));
    }
    lemma_tail_grow(oldc, cur, I, 0);
    let fb = ca_field_at(cur, I);
    assert((acc + seq![125u8]).take((acc + seq![125u8]).len() - 1) =~= acc);
    assert(ca_tail(cur, 0) =~= (acc + fb) + seq![125u8]);
    assert(s.subrange(vpos, vend) == bool_bytes(v));
    lemma_prefix_extend(s, pos, vend, s.subrange(0, pos), ca_key(I), bool_bytes(v));
    assert(s.subrange(0, vend) =~= ca_open() + enc_str(encode_utf8(cur.text@)) + (acc + fb));
    assert forall|y: CustomApplication|
        y.spec_encode() == s implies (y.text@ == cur.text@ && (forall|j2: int|
        0 <= j2 < I + 1 ==> ca_field_eq(&y, cur, j2)) && ca_tail(&y, I + 1) == s.subrange(
        vend,
        n,
    )) by {
        lemma_candidate_field(&y, s, k, pos, I);
            let xv = y.rainbow->Some_0;
            assert(ca_val(&y, I) == bool_bytes(xv));
            lemma_concat_split(s, vpos, bool_bytes(xv), ca_tail(&y, I + 1));
            if xv != v {
                assert(s[vpos] == bool_bytes(xv)[0]);
                assert(s.subrange(vpos, vend)[0] == s[vpos]);
                assert(bool_bytes(v)[0] == s[vpos]);
                assert(false);
            }
            assert(y.rainbow == Some(v));
            assert(ca_tail(&y, I + 1) == s.subrange(vend, n));
        assert forall|j2: int| 0 <= j2 < I + 1 implies ca_field_eq(&y, cur, j2) by {
            if j2 < k {
                assert(ca_field_eq(&y, oldc, j2));
            } else if j2 < I {
                assert(!ca_set(&y, j2));
                assert(!ca_set(oldc, j2));
                assert(!ca_set(cur, j2));
            }
        }
    }
}

/// No candidate exists when the `rainbow` field's value fails to read.
proof fn lemma_nofield_rainbow(s: Seq<u8>, n: int, pos: int, vpos: int, k: int, I: int)
    requires
        I == 9,
        n == s.len(),
        0 <= k <= I < 15,
        8 <= pos,
        pos + 2 + ca_key(I).len() < n,
        vpos == pos + 4 + ca_key(I).len(),
        s[pos] == 44,
        s[pos + 1] == 34,
        s.subrange(pos + 2, pos + 2 + ca_key(I).len() as int) == ca_key(I),
        s[pos + 2 + ca_key(I).len()] == 34,
        s[pos + 3 + ca_key(I).len()] == 58,
        forall|y: CustomApplication|
            y.spec_encode() == s ==> (ca_tail(&y, k) == s.subrange(pos, n)),
        forall|v: bool, end: int| !bool_value_at(s, vpos, v, end),
    ensures
        forall|y: CustomApplication| y.spec_encode() != s,
{
    assert forall|y: CustomApplication| y.spec_encode() != s by {
        if y.spec_encode() == s {
            lemma_candidate_field(&y, s, k, pos, I);
            let xv = y.rainbow->Some_0;
            assert(ca_val(&y, I) == bool_bytes(xv));
            lemma_concat_split(s, vpos, bool_bytes(xv), ca_tail(&y, I + 1));
            assert(bool_value_at(s, vpos, xv, vpos + bool_bytes(xv).len() as int));
        }
    }
}

/// One decoding step for the `icon` field: the consumed bytes extend by
/// exactly this field's encoding, and every candidate carries this field
/// with this value.
#[verifier::rlimit(100)]
proof fn lemma_step_icon(
    s: Seq<u8>,
    n: int,
    pos: int,
    vpos: int,
    vend: int,
    k: int,
    I: int,
    oldc: &CustomApplication,
    cur: &CustomApplication,
    acc: Seq<u8>,
    v: &String,
)
    requires
        I == 10,
        n == s.len(),
        0 <= k <= I < 15,
        8 <= pos,
        pos + 2 + ca_key(I).len() < n,
        vpos == pos + 4 + ca_key(I).len(),
        s[pos] == 44,
        s[pos + 1] == 34,
        s.subrange(pos + 2, pos + 2 + ca_key(I).len() as int) == ca_key(I),
        s[pos + 2 + ca_key(I).len()] == 34,
        s[pos + 3 + ca_key(I).len()] == 58,
        forall|y: CustomApplication|
            y.spec_encode() == s ==> (ca_tail(&y, k) == s.subrange(pos, n)),
        forall|c: Seq<char>, e2: int| str_value_at(s, vpos, c, e2) ==> c == v@ && e2 == vend,
        str_value_at(s, vpos, v@, vend),
        vpos < vend <= n,
        forall|j: int| k <= j < 15 ==> !ca_set(oldc, j),
        ca_tail(oldc, 0) == acc + seq![125u8],
        s.subrange(0, pos) == ca_open() + enc_str(encode_utf8(oldc.text@)) + acc,
        forall|y: CustomApplication|
            y.spec_encode() == s ==> (y.text@ == oldc.text@ && (forall|j2: int|
                0 <= j2 < k ==> ca_field_eq(&y, oldc, j2))),
        cur.text == oldc.text,
        cur.icon matches Some(sv) && sv@ == v@,
        cur.text_case == oldc.text_case,
        cur.top_text == oldc.top_text,
        cur.text_offset == oldc.text_offset,
        cur.center == oldc.center,
        cur.color == oldc.color,
        cur.gradient == oldc.gradient,
        cur.blink_text == oldc.blink_text,
        cur.fade_text == oldc.fade_text,
        cur.background == oldc.background,
        cur.rainbow == oldc.rainbow,
        cur.push_icon == oldc.push_icon,
        cur.repeat == oldc.repeat,
        cur.duration == oldc.duration,
        cur.life_time == oldc.life_time,
    ensures
        forall|j: int| I + 1 <= j < 15 ==> !ca_set(cur, j),
        ca_tail(cur, 0) == (acc + ca_field_at(cur, I)) + seq![125u8],
        s.subrange(0, vend) == ca_open() + enc_str(encode_utf8(cur.text@)) + (acc + ca_field_at(
            cur,
            I,
        )),
        forall|y: CustomApplication|
            y.spec_encode() == s ==> (y.text@ == cur.text@ && (forall|j2: int|
                0 <= j2 < I + 1 ==> ca_field_eq(&y, cur, j2)) && ca_tail(&y, I + 1) == s.subrange(
                vend,
                n,
            )),
{
    assert(ca_set(cur, I));
    assert(ca_val(cur, I) == enc_str(encode_utf8(v@)));
    assert forall|i2: int| 0 <= i2 < 15 && i2 != I implies ca_field_at(cur, i2) == ca_field_at(
        oldc,
        i2,
    ) by {}
    assert forall|i2: int| I <= i2 < 15 implies !ca_set(oldc, i2) by {
        assert(!ca_set(oldc, i2));
    }
    assert forall|i2: int| I < i2 < 15 implies !ca_set(cur, i2) by {
        assert(!ca_set(oldc, i2));
    }
    lemma_tail_grow(oldc, cur, I, 0);
    let fb = ca_field_at(cur, I);
    assert((acc + seq![125u8]).take((acc + seq![125u8]).len() - 1) =~= acc);
    assert(ca_tail(cur, 0) =~= (acc + fb) + seq![125u8]);
    assert(s.subrange(vpos, vend) == enc_str(encode_utf8(v@)));
    lemma_prefix_extend(s, pos, vend, s.subrange(0, pos), ca_key(I), enc_str(encode_utf8(v@)));
    assert(s.subrange(0, vend) =~= ca_open() + enc_str(encode_utf8(cur.text@)) + (acc + fb));
    assert forall|y: CustomApplication|
        y.spec_encode() == s implies (y.text@ == cur.text@ && (forall|j2: int|
        0 <= j2 < I + 1 ==> ca_field_eq(&y, cur, j2)) && ca_tail(&y, I + 1) == s.subrange(
        vend,
        n,
    )) by {
        lemma_candidate_field(&y, s, k, pos, I);
            let xv = y.icon->Some_0;
            assert(ca_val(&y, I) == enc_str(encode_utf8(xv@)));
            lemma_concat_split(s, vpos, enc_str(encode_utf8(xv@)), ca_tail(&y, I + 1));
            assert(str_value_at(s, vpos, xv@, vpos + enc_str(encode_utf8(xv@)).len() as int));
            assert(xv@ == v@ && vpos + enc_str(encode_utf8(xv@)).len() == vend);
            assert(ca_tail(&y, I + 1) == s.subrange(vend, n));
        assert forall|j2: int| 0 <= j2 < I + 1 implies ca_field_eq(&y, cur, j2) by {
            if j2 < k {
                assert(ca_field_eq(&y, oldc, j2));
            } else if j2 < I {
                assert(!ca_set(&y, j2));
                assert(!ca_set(oldc, j2));
                assert(!ca_set(cur, j2));
            }
        }
    }
}

/// No candidate exists when the `icon` field's value fails to read.
proof fn lemma_nofield_icon(s: Seq<u8>, n: int, pos: int, vpos: int, k: int, I: int)
    requires
        I == 10,
        n == s.len(),
        0 <= k <= I < 15,
        8 <= pos,
        pos + 2 + ca_key(I).len() < n,
        vpos == pos + 4 + ca_key(I).len(),
        s[pos] == 44,
        s[pos + 1] == 34,
        s.subrange(pos + 2, pos + 2 + ca_key(I).len() as int) == ca_key(I),
        s[pos + 2 + ca_key(I).len()] == 34,
        s[pos + 3 + ca_key(I).len()] == 58,
        forall|y: CustomApplication|
            y.spec_encode() == s ==> (ca_tail(&y, k) == s.subrange(pos, n)),
        forall|v: Seq<char>, end: int| !str_value_at(s, vpos, v, end),
    ensures
        forall|y: CustomApplication| y.spec_encode() != s,
{
    assert forall|y: CustomApplication| y.spec_encode() != s by {
        if y.spec_encode() == s {
            lemma_candidate_field(&y, s, k, pos, I);
            let xv = y.icon->Some_0;
            assert(ca_val(&y, I) == enc_str(encode_utf8(xv@)));
            lemma_concat_split(s, vpos, enc_str(encode_utf8(xv@)), ca_tail(&y, I + 1));
            assert(str_value_at(s, vpos, xv@, vpos + enc_str(encode_utf8(xv@)).len() as int));
        }
    }
}

/// One decoding step for the `push_icon` field: the consumed bytes extend by
/// exactly this field's encoding, and every candidate carries this field
/// with this value.
#[verifier::rlimit(100)]
proof fn lemma_step_push_icon(
    s: Seq<u8>,
    n: int,
    pos: int,
    vpos: int,
    vend: int,
    k: int,
    I: int,
    oldc: &CustomApplication,
    cur: &CustomApplication,
    acc: Seq<u8>,
    v: i32,
)
    requires
        I == 11,
        n == s.len(),
        0 <= k <= I < 15,
        8 <= pos,
        pos + 2 + ca_key(I).len() < n,
        vpos == pos + 4 + ca_key(I).len(),
        s[pos] == 44,
        s[pos + 1] == 34,
        s.subrange(pos + 2, pos + 2 + ca_key(I).len() as int) == ca_key(I),
        s[pos + 2 + ca_key(I).len()] == 34,
        s[pos + 3 + ca_key(I).len()] == 58,
        forall|y: CustomApplication|
            y.spec_encode() == s ==> (ca_tail(&y, k) == s.subrange(pos, n)),
        i32_value_at(s, vpos, v, vend),
        vpos < vend <= n,
        forall|j: int| k <= j < 15 ==> !ca_set(oldc, j),
        ca_tail(oldc, 0) == acc + seq![125u8],
        s.subrange(0, pos) == ca_open() + enc_str(encode_utf8(oldc.text@)) + acc,
        forall|y: CustomApplication|
            y.spec_encode() == s ==> (y.text@ == oldc.text@ && (forall|j2: int|
                0 <= j2 < k ==> ca_field_eq(&y, oldc, j2))),
        cur.text == oldc.text,
        cur.push_icon == Some(v),
        cur.text_case == oldc.text_case,
        cur.top_text == oldc.top_text,
        cur.text_offset == oldc.text_offset,
        cur.center == oldc.center,
        cur.color == oldc.color,
        cur.gradient == oldc.gradient,
        cur.blink_text == oldc.blink_text,
        cur.fade_text == oldc.fade_text,
        cur.background == oldc.background,
        cur.rainbow == oldc.rainbow,
        cur.icon == oldc.icon,
        cur.repeat == oldc.repeat,
        cur.duration == oldc.duration,
        cur.life_time == oldc.life_time,
    ensures
        forall|j: int| I + 1 <= j < 15 ==> !ca_set(cur, j),
        ca_tail(cur, 0) == (acc + ca_field_at(cur, I)) + seq![125u8],
        s.subrange(0, vend) == ca_open() + enc_str(encode_utf8(cur.text@)) + (acc + ca_field_at(
            cur,
            I,
        )),
        forall|y: CustomApplication|
            y.spec_encode() == s ==> (y.text@ == cur.text@ && (forall|j2: int|
                0 <= j2 < I + 1 ==> ca_field_eq(&y, cur, j2)) && ca_tail(&y, I + 1) == s.subrange(
                vend,
                n,
            )),
{
    assert(ca_set(cur, I));
    assert(ca_val(cur, I) == enc_int(v as int));
    assert forall|i2: int| 0 <= i2 < 15 && i2 != I implies ca_field_at(cur, i2) == ca_field_at(
        oldc,
        i2,
    ) by {}
    assert forall|i2: int| I <= i2 < 15 implies !ca_set(oldc, i2) by {
        assert(!ca_set(oldc, i2));
    }
    assert forall|i2: int| I < i2 < 15 implies !ca_set(cur, i2) by {
        assert(!ca_set(oldc, i2));
    }
    lemma_tail_grow(oldc, cur, I, 0);
    let fb = ca_field_at(cur, I);
    assert((acc + seq![125u8]).take((acc + seq![125u8]).len() - 1) =~= acc);
    assert(ca_tail(cur, 0) =~= (acc + fb) + seq![125u8]);
    assert(s.subrange(vpos, vend) == enc_int(v as int));
    lemma_prefix_extend(s, pos, vend, s.subrange(0, pos), ca_key(I), enc_int(v as int));
    assert(s.subrange(0, vend) =~= ca_open() + enc_str(encode_utf8(cur.text@)) + (acc + fb));
    assert forall|y: CustomApplication|
        y.spec_encode() == s implies (y.text@ == cur.text@ && (forall|j2: int|
        0 <= j2 < I + 1 ==> ca_field_eq(&y, cur, j2)) && ca_tail(&y, I + 1) == s.subrange(
        vend,
        n,
    )) by {
        lemma_candidate_field(&y, s, k, pos, I);
            let xv = y.push_icon->Some_0;
            assert(ca_val(&y, I) == enc_int(xv as int));
            lemma_concat_split(s, vpos, enc_int(xv as int), ca_tail(&y, I + 1));
            assert(i32_value_at(s, vpos, xv, vpos + enc_int(xv as int).len() as int));
            assert(crate::json::int_at(s, vpos, xv as i64, vpos + enc_int(xv as int).len() as int));
            assert(crate::json::int_at(s, vpos, v as i64, vend));
            crate::json::lemma_int_at_unique(
                s,
                vpos,
                v as i64,
                vend,
                xv as i64,
                vpos + enc_int(xv as int).len() as int,
            );
            assert(y.push_icon == Some(v));
            assert(ca_tail(&y, I + 1) == s.subrange(vend, n));
        assert forall|j2: int| 0 <= j2 < I + 1 implies ca_field_eq(&y, cur, j2) by {
            if j2 < k {
                assert(ca_field_eq(&y, oldc, j2));
            } else if j2 < I {
                assert(!ca_set(&y, j2));
                assert(!ca_set(oldc, j2));
                assert(!ca_set(cur, j2));
            }
        }
    }
}

/// No candidate exists when the `push_icon` field's value fails to read.
proof fn lemma_nofield_push_icon(s: Seq<u8>, n: int, pos: int, vpos: int, k: int, I: int)
    requires
        I == 11,
        n == s.len(),
        0 <= k <= I < 15,
        8 <= pos,
        pos + 2 + ca_key(I).len() < n,
        vpos == pos + 4 + ca_key(I).len(),
        s[pos] == 44,
        s[pos + 1] == 34,
        s.subrange(pos + 2, pos + 2 + ca_key(I).len() as int) == ca_key(I),
        s[pos + 2 + ca_key(I).len()] == 34,
        s[pos + 3 + ca_key(I).len()] == 58,
        forall|y: CustomApplication|
            y.spec_encode() == s ==> (ca_tail(&y, k) == s.subrange(pos, n)),
        forall|v: i32, end: int| !i32_value_at(s, vpos, v, end),
    ensures
        forall|y: CustomApplication| y.spec_encode() != s,
{
    assert forall|y: CustomApplication| y.spec_encode() != s by {
        if y.spec_encode() == s {
            lemma_candidate_field(&y, s, k, pos, I);
            let xv = y.push_icon->Some_0;
            assert(ca_val(&y, I) == enc_int(xv as int));
            lemma_concat_split(s, vpos, enc_int(xv as int), ca_tail(&y, I + 1));
            assert(i32_value_at(s, vpos, xv, vpos + enc_int(xv as int).len() as int));
        }
    }
}

/// One decoding step for the `repeat` field: the consumed bytes extend by
/// exactly this field's encoding, and every candidate carries this field
/// with this value.
#[verifier::rlimit(100)]
proof fn lemma_step_repeat(
    s: Seq<u8>,
    n: int,
    pos: int,
    vpos: int,
    vend: int,
    k: int,
    I: int,
    oldc: &CustomApplication,
    cur: &CustomApplication,
    acc: Seq<u8>,
    v: i32,
)
    requires
        I == 12,
        n == s.len(),
        0 <= k <= I < 15,
        8 <= pos,
        pos + 2 + ca_key(I).len() < n,
        vpos == pos + 4 + ca_key(I).len(),
        s[pos] == 44,
        s[pos + 1] == 34,
        s.subrange(pos + 2, pos + 2 + ca_key(I).len() as int) == ca_key(I),
        s[pos + 2 + ca_key(I).len()] == 34,
        s[pos + 3 + ca_key(I).len()] == 58,
        forall|y: CustomApplication|
            y.spec_encode() == s ==> (ca_tail(&y, k) == s.subrange(pos, n)),
        i32_value_at(s, vpos, v, vend),
        vpos < vend <= n,
        forall|j: int| k <= j < 15 ==> !ca_set(oldc, j),
        ca_tail(oldc, 0) == acc + seq![125u8],
        s.subrange(0, pos) == ca_open() + enc_str(encode_utf8(oldc.text@)) + acc,
        forall|y: CustomApplication|
            y.spec_encode() == s ==> (y.text@ == oldc.text@ && (forall|j2: int|
                0 <= j2 < k ==> ca_field_eq(&y, oldc, j2))),
        cur.text == oldc.text,
        cur.repeat == Some(v),
        cur.text_case == oldc.text_case,
        cur.top_text == oldc.top_text,
        cur.text_offset == oldc.text_offset,
        cur.center == oldc.center,
        cur.color == oldc.color,
        cur.gradient == oldc.gradient,
        cur.blink_text == oldc.blink_text,
        cur.fade_text == oldc.fade_text,
        cur.background == oldc.background,
        cur.rainbow == oldc.rainbow,
        cur.icon == oldc.icon,
        cur.push_icon == oldc.push_icon,
        cur.duration == oldc.duration,
        cur.life_time == oldc.life_time,
    ensures
        forall|j: int| I + 1 <= j < 15 ==> !ca_set(cur, j),
        ca_tail(cur, 0) == (acc + ca_field_at(cur, I)) + seq![125u8],
        s.subrange(0, vend) == ca_open() + enc_str(encode_utf8(cur.text@)) + (acc + ca_field_at(
            cur,
            I,
        )),
        forall|y: CustomApplication|
            y.spec_encode() == s ==> (y.text@ == cur.text@ && (forall|j2: int|
                0 <= j2 < I + 1 ==> ca_field_eq(&y, cur, j2)) && ca_tail(&y, I + 1) == s.subrange(
                vend,
                n,
            )),
{
    assert(ca_set(cur, I));
    assert(ca_val(cur, I) == enc_int(v as int));
    assert forall|i2: int| 0 <= i2 < 15 && i2 != I implies ca_field_at(cur, i2) == ca_field_at(
        oldc,
        i2,
    ) by {}
    assert forall|i2: int| I <= i2 < 15 implies !ca_set(oldc, i2) by {
        assert(!ca_set(oldc, i2));
    }
    assert forall|i2: int| I < i2 < 15 implies !ca_set(cur, i2) by {
        assert(!ca_set(oldc, i2));
    }
    lemma_tail_grow(oldc, cur, I, 0);
    let fb = ca_field_at(cur, I);
    assert((acc + seq![125u8]).take((acc + seq![125u8]).len() - 1) =~= acc);
    assert(ca_tail(cur, 0) =~= (acc + fb) + seq![125u8]);
    assert(s.subrange(vpos, vend) == enc_int(v as int));
    lemma_prefix_extend(s, pos, vend, s.subrange(0, pos), ca_key(I), enc_int(v as int));
    assert(s.subrange(0, vend) =~= ca_open() + enc_str(encode_utf8(cur.text@)) + (acc + fb));
    assert forall|y: CustomApplication|
        y.spec_encode() == s implies (y.text@ == cur.text@ && (forall|j2: int|
        0 <= j2 < I + 1 ==> ca_field_eq(&y, cur, j2)) && ca_tail(&y, I + 1) == s.subrange(
        vend,
        n,
    )) by {
        lemma_candidate_field(&y, s, k, pos, I);
            let xv = y.repeat->Some_0;
            assert(ca_val(&y, I) == enc_int(xv as int));
            lemma_concat_split(s, vpos, enc_int(xv as int), ca_tail(&y, I + 1));
            assert(i32_value_at(s, vpos, xv, vpos + enc_int(xv as int).len() as int));
            assert(crate::json::int_at(s, vpos, xv as i64, vpos + enc_int(xv as int).len() as int));
            assert(crate::json::int_at(s, vpos, v as i64, vend));
            crate::json::lemma_int_at_unique(
                s,
                vpos,
                v as i64,
                vend,
                xv as i64,
                vpos + enc_int(xv as int).len() as int,
            );
            assert(y.repeat == Some(v));
            assert(ca_tail(&y, I + 1) == s.subrange(vend, n));
        assert forall|j2: int| 0 <= j2 < I + 1 implies ca_field_eq(&y, cur, j2) by {
            if j2 < k {
                assert(ca_field_eq(&y, oldc, j2));
            } else if j2 < I {
                assert(!ca_set(&y, j2));
                assert(!ca_set(oldc, j2));
                assert(!ca_set(cur, j2));
            }
        }
    }
}

/// No candidate exists when the `repeat` field's value fails to read.
proof fn lemma_nofield_repeat(s: Seq<u8>, n: int, pos: int, vpos: int, k: int, I: int)
    requires
        I == 12,
        n == s.len(),
        0 <= k <= I < 15,
        8 <= pos,
        pos + 2 + ca_key(I).len() < n,
        vpos == pos + 4 + ca_key(I).len(),
        s[pos] == 44,
        s[pos + 1] == 34,
        s.subrange(pos + 2, pos + 2 + ca_key(I).len() as int) == ca_key(I),
        s[pos + 2 + ca_key(I).len()] == 34,
        s[pos + 3 + ca_key(I).len()] == 58,
        forall|y: CustomApplication|
            y.spec_encode() == s ==> (ca_tail(&y, k) == s.subrange(pos, n)),
        forall|v: i32, end: int| !i32_value_at(s, vpos, v, end),
    ensures
        forall|y: CustomApplication| y.spec_encode() != s,
{
    assert forall|y: CustomApplication| y.spec_encode() != s by {
        if y.spec_encode() == s {
            lemma_candidate_field(&y, s, k, pos, I);
            let xv = y.repeat->Some_0;
            assert(ca_val(&y, I) == enc_int(xv as int));
            lemma_concat_split(s, vpos, enc_int(xv as int), ca_tail(&y, I + 1));
            assert(i32_value_at(s, vpos, xv, vpos + enc_int(xv as int).len() as int));
        }
    }
}

/// One decoding step for the `duration` field: the consumed bytes extend by
/// exactly this field's encoding, and every candidate carries this field
/// with this value.
#[verifier::rlimit(100)]
proof fn lemma_step_duration(
    s: Seq<u8>,
    n: int,
    pos: int,
    vpos: int,
    vend: int,
    k: int,
    I: int,
    oldc: &CustomApplication,
    cur: &CustomApplication,
    acc: Seq<u8>,
    v: i32,
)
    requires
        I == 13,
        n == s.len(),
        0 <= k <= I < 15,
        8 <= pos,
        pos + 2 + ca_key(I).len() < n,
        vpos == pos + 4 + ca_key(I).len(),
        s[pos] == 44,
        s[pos + 1] == 34,
        s.subrange(pos + 2, pos + 2 + ca_key(I).len() as int) == ca_key(I),
        s[pos + 2 + ca_key(I).len()] == 34,
        s[pos + 3 + ca_key(I).len()] == 58,
        forall|y: CustomApplication|
            y.spec_encode() == s ==> (ca_tail(&y, k) == s.subrange(pos, n)),
        i32_value_at(s, vpos, v, vend),
        vpos < vend <= n,
        forall|j: int| k <= j < 15 ==> !ca_set(oldc, j),
        ca_tail(oldc, 0) == acc + seq![125u8],
        s.subrange(0, pos) == ca_open() + enc_str(encode_utf8(oldc.text@)) + acc,
        forall|y: CustomApplication|
            y.spec_encode() == s ==> (y.text@ == oldc.text@ && (forall|j2: int|
                0 <= j2 < k ==> ca_field_eq(&y, oldc, j2))),
        cur.text == oldc.text,
        cur.duration == Some(v),
        cur.text_case == oldc.text_case,
        cur.top_text == oldc.top_text,
        cur.text_offset == oldc.text_offset,
        cur.center == oldc.center,
        cur.color == oldc.color,
        cur.gradient == oldc.gradient,
        cur.blink_text == oldc.blink_text,
        cur.fade_text == oldc.fade_text,
        cur.background == oldc.background,
        cur.rainbow == oldc.rainbow,
        cur.icon == oldc.icon,
        cur.push_icon == oldc.push_icon,
        cur.repeat == oldc.repeat,
        cur.life_time == oldc.life_time,
    ensures
        forall|j: int| I + 1 <= j < 15 ==> !ca_set(cur, j),
        ca_tail(cur, 0) == (acc + ca_field_at(cur, I)) + seq![125u8],
        s.subrange(0, vend) == ca_open() + enc_str(encode_utf8(cur.text@)) + (acc + ca_field_at(
            cur,
            I,
        )),
        forall|y: CustomApplication|
            y.spec_encode() == s ==> (y.text@ == cur.text@ && (forall|j2: int|
                0 <= j2 < I + 1 ==> ca_field_eq(&y, cur, j2)) && ca_tail(&y, I + 1) == s.subrange(
                vend,
                n,
            )),
{
    assert(ca_set(cur, I));
    assert(ca_val(cur, I) == enc_int(v as int));
    assert forall|i2: int| 0 <= i2 < 15 && i2 != I implies ca_field_at(cur, i2) == ca_field_at(
        oldc,
        i2,
    ) by {}
    assert forall|i2: int| I <= i2 < 15 implies !ca_set(oldc, i2) by {
        assert(!ca_set(oldc, i2));
    }
    assert forall|i2: int| I < i2 < 15 implies !ca_set(cur, i2) by {
        assert(!ca_set(oldc, i2));
    }
    lemma_tail_grow(oldc, cur, I, 0);
    let fb = ca_field_at(cur, I);
    assert((acc + seq![125u8]).take((acc + seq![125u8]).len() - 1) =~= acc);
    assert(ca_tail(cur, 0) =~= (acc + fb) + seq![125u8]);
    assert(s.subrange(vpos, vend) == enc_int(v as int));
    lemma_prefix_extend(s, pos, vend, s.subrange(0, pos), ca_key(I), enc_int(v as int));
    assert(s.subrange(0, vend) =~= ca_open() + enc_str(encode_utf8(cur.text@)) + (acc + fb));
    assert forall|y: CustomApplication|
        y.spec_encode() == s implies (y.text@ == cur.text@ && (forall|j2: int|
        0 <= j2 < I + 1 ==> ca_field_eq(&y, cur, j2)) && ca_tail(&y, I + 1) == s.subrange(
        vend,
        n,
    )) by {
        lemma_candidate_field(&y, s, k, pos, I);
            let xv = y.duration->Some_0;
            assert(ca_val(&y, I) == enc_int(xv as int));
            lemma_concat_split(s, vpos, enc_int(xv as int), ca_tail(&y, I + 1));
            assert(i32_value_at(s, vpos, xv, vpos + enc_int(xv as int).len() as int));
            assert(crate::json::int_at(s, vpos, xv as i64, vpos + enc_int(xv as int).len() as int));
            assert(crate::json::int_at(s, vpos, v as i64, vend));
            crate::json::lemma_int_at_unique(
                s,
                vpos,
                v as i64,
                vend,
                xv as i64,
                vpos + enc_int(xv as int).len() as int,
            );
            assert(y.duration == Some(v));
            assert(ca_tail(&y, I + 1) == s.subrange(vend, n));
        assert forall|j2: int| 0 <= j2 < I + 1 implies ca_field_eq(&y, cur, j2) by {
            if j2 < k {
                assert(ca_field_eq(&y, oldc, j2));
            } else if j2 < I {
                assert(!ca_set(&y, j2));
                assert(!ca_set(oldc, j2));
                assert(!ca_set(cur, j2));
            }
        }
    }
}

/// No candidate exists when the `duration` field's value fails to read.
proof fn lemma_nofield_duration(s: Seq<u8>, n: int, pos: int, vpos: int, k: int, I: int)
    requires
        I == 13,
        n == s.len(),
        0 <= k <= I < 15,
        8 <= pos,
        pos + 2 + ca_key(I).len() < n,
        vpos == pos + 4 + ca_key(I).len(),
        s[pos] == 44,
        s[pos + 1] == 34,
        s.subrange(pos + 2, pos + 2 + ca_key(I).len() as int) == ca_key(I),
        s[pos + 2 + ca_key(I).len()] == 34,
        s[pos + 3 + ca_key(I).len()] == 58,
        forall|y: CustomApplication|
            y.spec_encode() == s ==> (ca_tail(&y, k) == s.subrange(pos, n)),
        forall|v: i32, end: int| !i32_value_at(s, vpos, v, end),
    ensures
        forall|y: CustomApplication| y.spec_encode() != s,
{
    assert forall|y: CustomApplication| y.spec_encode() != s by {
        if y.spec_encode() == s {
            lemma_candidate_field(&y, s, k, pos, I);
            let xv = y.duration->Some_0;
            assert(ca_val(&y, I) == enc_int(xv as int));
            lemma_concat_split(s, vpos, enc_int(xv as int), ca_tail(&y, I + 1));
            assert(i32_value_at(s, vpos, xv, vpos + enc_int(xv as int).len() as int));
        }
    }
}

/// One decoding step for the `life_time` field: the consumed bytes extend by
/// exactly this field's encoding, and every candidate carries this field
/// with this value.
#[verifier::rlimit(100)]
proof fn lemma_step_life_time(
    s: Seq<u8>,
    n: int,
    pos: int,
    vpos: int,
    vend: int,
    k: int,
    I: int,
    oldc: &CustomApplication,
    cur: &CustomApplication,
    acc: Seq<u8>,
    v: i32,
)
    requires
        I == 14,
        n == s.len(),
        0 <= k <= I < 15,
        8 <= pos,
        pos + 2 + ca_key(I).len() < n,
        vpos == pos + 4 + ca_key(I).len(),
        s[pos] == 44,
        s[pos + 1] == 34,
        s.subrange(pos + 2, pos + 2 + ca_key(I).len() as int) == ca_key(I),
        s[pos + 2 + ca_key(I).len()] == 34,
        s[pos + 3 + ca_key(I).len()] == 58,
        forall|y: CustomApplication|
            y.spec_encode() == s ==> (ca_tail(&y, k) == s.subrange(pos, n)),
        i32_value_at(s, vpos, v, vend),
        vpos < vend <= n,
        forall|j: int| k <= j < 15 ==> !ca_set(oldc, j),
        ca_tail(oldc, 0) == acc + seq![125u8],
        s.subrange(0, pos) == ca_open() + enc_str(encode_utf8(oldc.text@)) + acc,
        forall|y: CustomApplication|
            y.spec_encode() == s ==> (y.text@ == oldc.text@ && (forall|j2: int|
                0 <= j2 < k ==> ca_field_eq(&y, oldc, j2))),
        cur.text == oldc.text,
        cur.life_time == Some(v),
        cur.text_case == oldc.text_case,
        cur.top_text == oldc.top_text,
        cur.text_offset == oldc.text_offset,
        cur.center == oldc.center,
        cur.color == oldc.color,
        cur.gradient == oldc.gradient,
        cur.blink_text == oldc.blink_text,
        cur.fade_text == oldc.fade_text,
        cur.background == oldc.background,
        cur.rainbow == oldc.rainbow,
        cur.icon == oldc.icon,
        cur.push_icon == oldc.push_icon,
        cur.repeat == oldc.repeat,
        cur.duration == oldc.duration,
    ensures
        forall|j: int| I + 1 <= j < 15 ==> !ca_set(cur, j),
        ca_tail(cur, 0) == (acc + ca_field_at(cur, I)) + seq![125u8],
        s.subrange(0, vend) == ca_open() + enc_str(encode_utf8(cur.text@)) + (acc + ca_field_at(
            cur,
            I,
        )),
        forall|y: CustomApplication|
            y.spec_encode() == s ==> (y.text@ == cur.text@ && (forall|j2: int|
                0 <= j2 < I + 1 ==> ca_field_eq(&y, cur, j2)) && ca_tail(&y, I + 1) == s.subrange(
                vend,
                n,
            )),
{
    assert(ca_set(cur, I));
    assert(ca_val(cur, I) == enc_int(v as int));
    assert forall|i2: int| 0 <= i2 < 15 && i2 != I implies ca_field_at(cur, i2) == ca_field_at(
        oldc,
        i2,
    ) by {}
    assert forall|i2: int| I <= i2 < 15 implies !ca_set(oldc, i2) by {
        assert(!ca_set(oldc, i2));
    }
    assert forall|i2: int| I < i2 < 15 implies !ca_set(cur, i2) by {
        assert(!ca_set(oldc, i2));
    }
    lemma_tail_grow(oldc, cur, I, 0);
    let fb = ca_field_at(cur, I);
    assert((acc + seq![125u8]).take((acc + seq![125u8]).len() - 1) =~= acc);
    assert(ca_tail(cur, 0) =~= (acc + fb) + seq![125u8]);
    assert(s.subrange(vpos, vend) == enc_int(v as int));
    lemma_prefix_extend(s, pos, vend, s.subrange(0, pos), ca_key(I), enc_int(v as int));
    assert(s.subrange(0, vend) =~= ca_open() + enc_str(encode_utf8(cur.text@)) + (acc + fb));
    assert forall|y: CustomApplication|
        y.spec_encode() == s implies (y.text@ == cur.text@ && (forall|j2: int|
        0 <= j2 < I + 1 ==> ca_field_eq(&y, cur, j2)) && ca_tail(&y, I + 1) == s.subrange(
        vend,
        n,
    )) by {
        lemma_candidate_field(&y, s, k, pos, I);
            let xv = y.life_time->Some_0;
            assert(ca_val(&y, I) == enc_int(xv as int));
            lemma_concat_split(s, vpos, enc_int(xv as int), ca_tail(&y, I + 1));
            assert(i32_value_at(s, vpos, xv, vpos + enc_int(xv as int).len() as int));
            assert(crate::json::int_at(s, vpos, xv as i64, vpos + enc_int(xv as int).len() as int));
            assert(crate::json::int_at(s, vpos, v as i64, vend));
            crate::json::lemma_int_at_unique(
                s,
                vpos,
                v as i64,
                vend,
                xv as i64,
                vpos + enc_int(xv as int).len() as int,
            );
            assert(y.life_time == Some(v));
            assert(ca_tail(&y, I + 1) == s.subrange(vend, n));
        assert forall|j2: int| 0 <= j2 < I + 1 implies ca_field_eq(&y, cur, j2) by {
            if j2 < k {
                assert(ca_field_eq(&y, oldc, j2));
            } else if j2 < I {
                assert(!ca_set(&y, j2));
                assert(!ca_set(oldc, j2));
                assert(!ca_set(cur, j2));
            }
        }
    }
}

/// No candidate exists when the `life_time` field's value fails to read.
proof fn lemma_nofield_life_time(s: Seq<u8>, n: int, pos: int, vpos: int, k: int, I: int)
    requires
        I == 14,
        n == s.len(),
        0 <= k <= I < 15,
        8 <= pos,
        pos + 2 + ca_key(I).len() < n,
        vpos == pos + 4 + ca_key(I).len(),
        s[pos] == 44,
        s[pos + 1] == 34,
        s.subrange(pos + 2, pos + 2 + ca_key(I).len() as int) == ca_key(I),
        s[pos + 2 + ca_key(I).len()] == 34,
        s[pos + 3 + ca_key(I).len()] == 58,
        forall|y: CustomApplication|
            y.spec_encode() == s ==> (ca_tail(&y, k) == s.subrange(pos, n)),
        forall|v: i32, end: int| !i32_value_at(s, vpos, v, end),
    ensures
        forall|y: CustomApplication| y.spec_encode() != s,
{
    assert forall|y: CustomApplication| y.spec_encode() != s by {
        if y.spec_encode() == s {
            lemma_candidate_field(&y, s, k, pos, I);
            let xv = y.life_time->Some_0;
            assert(ca_val(&y, I) == enc_int(xv as int));
            lemma_concat_split(s, vpos, enc_int(xv as int), ca_tail(&y, I + 1));
            assert(i32_value_at(s, vpos, xv, vpos + enc_int(xv as int).len() as int));
        }
    }
}

/// Decodes the canonical sparse encoding of a directive: the exact
/// inverse of `encode`. Anything but a canonical encoding fails with the
/// typed decode error.
#[verifier::rlimit(100)]
pub fn decode_custom_application(payload: &[u8]) -> (r: Result<CustomApplication, DecodeError>)
    ensures
        match r {
            Ok(x) => x.spec_encode() == payload@,
            Err(e) => {
                &&& e == DecodeError::Malformed
                &&& forall|y: CustomApplication| y.spec_encode() != payload@
            },
        },
{
    let n = payload.len();
    let open = ca_open_v();
    if !match_lit(payload, 0, open.as_slice()) {
        proof {
            assert forall|y: CustomApplication| y.spec_encode() != payload@ by {
                if y.spec_encode() == payload@ {
                    lemma_candidate_decomp(&y, payload@);
                }
            }
        }
        return Err(DecodeError::Malformed);
    }
    if n == 8 || payload[8] != 34 {
        proof {
            assert forall|y: CustomApplication| y.spec_encode() != payload@ by {
                if y.spec_encode() == payload@ {
                    lemma_candidate_decomp(&y, payload@);
                }
            }
        }
        return Err(DecodeError::Malformed);
    }
    let (content, tpos) = match crate::json::parse_str_body(payload, 9) {
        Some(p) => p,
        Option::None => {
            proof {
                assert forall|y: CustomApplication| y.spec_encode() != payload@ by {
                    if y.spec_encode() == payload@ {
                        lemma_candidate_decomp(&y, payload@);
                    }
                }
            }
            return Err(DecodeError::Malformed);
        },
    };
    let ghost content_view = content@;
    let text = match bytes_to_string(content) {
        Some(t) => t,
        Option::None => {
            proof {
                broadcast use vstd::utf8::encode_utf8_valid_utf8;

                assert forall|y: CustomApplication| y.spec_encode() != payload@ by {
                    if y.spec_encode() == payload@ {
                        lemma_candidate_decomp(&y, payload@);
                        assert(encode_utf8(y.text@) == content_view);
                        assert(vstd::utf8::valid_utf8(encode_utf8(y.text@)));
                    }
                }
            }
            return Err(DecodeError::Malformed);
        },
    };
    let mut cur = CustomApplication::default();
    cur.text = text;
    let mut pos: usize = tpos;
    let mut k: usize = 0;
    let ghost mut acc: Seq<u8> = Seq::empty();
    proof {
        assert forall|j: int| 0 <= j < 15 implies !ca_set(&cur, j) by {}
        lemma_tail_all_unset(&cur, 0);
        assert(ca_tail(&cur, 0) =~= acc + seq![125u8]);
        assert(encode_utf8(cur.text@) == content_view);
        assert(payload@.subrange(0, pos as int) =~= ca_open() + enc_str(encode_utf8(cur.text@))
            + acc) by {
            let body = crate::json::esc_bytes(content_view);
            assert(payload@.subrange(9, tpos as int) == body + seq![34u8]);
            assert forall|x: int| 0 <= x < pos implies payload@.subrange(0, pos as int)[x] == (
            ca_open() + enc_str(encode_utf8(cur.text@)) + acc)[x] by {
                assert(payload@.subrange(0, 8) == ca_open());
                if x < 8 {
                    assert(payload@.subrange(0, 8)[x] == payload@[x]);
                } else if x == 8 {
                } else {
                    assert(payload@.subrange(9, tpos as int)[x - 9] == payload@[x]);
                    assert((body + seq![34u8])[x - 9] == ((seq![34u8] + body) + seq![34u8])[x
                        - 8]);
                }
            }
        }
        broadcast use vstd::utf8::encode_utf8_decode_utf8;

        assert forall|y: CustomApplication|
            y.spec_encode() == payload@ implies (y.text@ == cur.text@ && (forall|j2: int|
            0 <= j2 < 0 ==> ca_field_eq(&y, &cur, j2)) && ca_tail(&y, 0)
            == payload@.subrange(pos as int, n as int)) by {
            lemma_candidate_decomp(&y, payload@);
            assert(encode_utf8(y.text@) == content_view && 10 + crate::json::esc_bytes(
                encode_utf8(y.text@),
            ).len() as int == tpos as int);
            assert(vstd::utf8::decode_utf8(encode_utf8(y.text@)) == y.text@);
            assert(vstd::utf8::decode_utf8(encode_utf8(cur.text@)) == cur.text@);
        }
    }
    loop
        invariant
            n == payload@.len(),
            8 <= pos <= n,
            k <= 15,
            forall|j: int| k <= j < 15 ==> !ca_set(&cur, j),
            ca_tail(&cur, 0) == acc + seq![125u8],
            payload@.subrange(0, pos as int) == ca_open() + enc_str(encode_utf8(cur.text@)) + acc,
            forall|y: CustomApplication|
                y.spec_encode() == payload@ ==> (y.text@ == cur.text@ && (forall|j2: int|
                    0 <= j2 < k ==> ca_field_eq(&y, &cur, j2)) && ca_tail(&y, k as int)
                    == payload@.subrange(pos as int, n as int)),
        decreases n - pos,
    {
        if pos == n {
            proof {
                assert forall|y: CustomApplication| y.spec_encode() != payload@ by {
                    if y.spec_encode() == payload@ {
                        lemma_tail_first(&y, k as int);
                        assert(ca_tail(&y, k as int).len() >= 1);
                    }
                }
            }
            return Err(DecodeError::Malformed);
        }
        let c0 = payload[pos];
        if c0 == 125 {
            if pos + 1 == n {
                proof {
                    lemma_encode_tail(&cur);
                    let p0 = ca_open() + enc_str(encode_utf8(cur.text@)) + acc;
                    assert(p0.len() == pos) by {
                        assert(payload@.subrange(0, pos as int).len() == pos);
                    }
                    assert(cur.spec_encode() =~= p0 + seq![125u8]);
                    assert(payload@ =~= p0 + seq![125u8]) by {
                        assert forall|x: int| 0 <= x < n implies payload@[x] == (p0
                            + seq![125u8])[x] by {
                            if x < pos {
                                assert(payload@.subrange(0, pos as int)[x] == payload@[x]);
                            } else {
                                assert(payload@[x] == 125);
                            }
                        }
                    }
                }
                return Ok(cur);
            }
            proof {
                assert forall|y: CustomApplication| y.spec_encode() != payload@ by {
                    if y.spec_encode() == payload@ {
                        lemma_tail_first(&y, k as int);
                        assert(ca_tail(&y, k as int)[0] == payload@.subrange(
                            pos as int,
                            n as int,
                        )[0]);
                        assert(ca_tail(&y, k as int) == seq![125u8]);
                    }
                }
            }
            return Err(DecodeError::Malformed);
        }
        if c0 != 44 {
            proof {
                assert forall|y: CustomApplication| y.spec_encode() != payload@ by {
                    if y.spec_encode() == payload@ {
                        lemma_tail_first(&y, k as int);
                        assert(ca_tail(&y, k as int)[0] == payload@.subrange(
                            pos as int,
                            n as int,
                        )[0]);
                    }
                }
            }
            return Err(DecodeError::Malformed);
        }
        if pos + 1 == n || payload[pos + 1] != 34 {
            proof {
                lemma_err_no_second_quote(payload@, k as int, pos as int);
            }
            return Err(DecodeError::Malformed);
        }
        let j = match scan_quote(payload, pos + 2) {
            Some(j) => j,
            Option::None => {
                proof {
                    lemma_err_no_closing_quote(payload@, k as int, pos as int);
                }
                return Err(DecodeError::Malformed);
            },
        };
        let keylen = j - pos - 2;
        proof {
            assert forall|y: CustomApplication|
                y.spec_encode() == payload@ implies ca_tail(&y, k as int) == payload@.subrange(
                pos as int,
                n as int,
            ) by {}
        }
        if j + 1 == n || payload[j + 1] != 58 {
            proof {
                assert forall|y: CustomApplication| y.spec_encode() != payload@ by {
                    if y.spec_encode() == payload@ {
                        let m = lemma_scan_pins_key(payload@, k as int, pos as int, j as int);
                    }
                }
            }
            return Err(DecodeError::Malformed);
        }
        let i = match match_key(payload, pos + 2, keylen) {
            Some(i) => i,
            Option::None => {
                proof {
                    assert forall|y: CustomApplication| y.spec_encode() != payload@ by {
                        if y.spec_encode() == payload@ {
                            let m = lemma_scan_pins_key(payload@, k as int, pos as int, j as int);
                            assert(keylen == ca_key(m).len());
                        }
                    }
                }
                return Err(DecodeError::Malformed);
            },
        };
        if i < k {
            proof {
                assert forall|y: CustomApplication| y.spec_encode() != payload@ by {
                    if y.spec_encode() == payload@ {
                        let m = lemma_scan_pins_key(payload@, k as int, pos as int, j as int);
                        assert(ca_key(i as int) =~= ca_key(m));
                        lemma_key_inj(i as int, m);
                    }
                }
            }
            return Err(DecodeError::Malformed);
        }
        let vpos = j + 2;
        proof {
            assert(payload@[j as int] == 34);
            assert(payload@[pos + 2 + ca_key(i as int).len()] == 34);
        }
        match decode_field(payload, pos, vpos, i, k, cur, Ghost(acc)) {
            Ok(t) => {
                let (c2, vend, a2) = t;
                cur = c2;
                pos = vend;
                k = i + 1;
                proof {
                    acc = a2@;
                }
            },
            Err(e) => {
                return Err(e);
            },
        }
    }
}


/// Reads one optional field at `pos` (whose key, already matched, is the
/// one at position `i`) and extends the directive being built. On success
/// the consumed prefix and the field tail obligations advance to the
/// field after `i`.
fn decode_field(
    payload: &[u8],
    pos: usize,
    vpos: usize,
    i: usize,
    k: usize,
    cur: CustomApplication,
    Ghost(acc0): Ghost<Seq<u8>>,
) -> (r: Result<(CustomApplication, usize, Ghost<Seq<u8>>), DecodeError>)
    requires
        k <= i < 15,
        8 <= pos,
        pos + 2 + ca_key(i as int).len() < payload@.len(),
        vpos == pos + 4 + ca_key(i as int).len(),
        vpos <= payload@.len(),
        payload@[pos as int] == 44,
        payload@[pos + 1] == 34,
        payload@.subrange(pos + 2, pos + 2 + ca_key(i as int).len() as int) == ca_key(i as int),
        payload@[pos + 2 + ca_key(i as int).len()] == 34,
        payload@[pos + 3 + ca_key(i as int).len()] == 58,
        forall|jj: int| k <= jj < 15 ==> !ca_set(&cur, jj),
        ca_tail(&cur, 0) == acc0 + seq![125u8],
        payload@.subrange(0, pos as int) == ca_open() + enc_str(encode_utf8(cur.text@)) + acc0,
        forall|y: CustomApplication|
            y.spec_encode() == payload@ ==> (y.text@ == cur.text@ && (forall|j2: int|
                0 <= j2 < k ==> ca_field_eq(&y, &cur, j2)) && ca_tail(&y, k as int)
                == payload@.subrange(pos as int, payload@.len() as int)),
    ensures
        match r {
            Ok(t) => {
                &&& pos < t.1 <= payload@.len()
                &&& t.0.text == cur.text
                &&& (forall|jj: int| i + 1 <= jj < 15 ==> !ca_set(&t.0, jj))
                &&& ca_tail(&t.0, 0) == t.2@ + seq![125u8]
                &&& payload@.subrange(0, t.1 as int) == ca_open() + enc_str(
                    encode_utf8(t.0.text@),
                ) + t.2@
                &&& (forall|y: CustomApplication|
                    y.spec_encode() == payload@ ==> (y.text@ == t.0.text@ && (forall|j2: int|
                        0 <= j2 < i + 1 ==> ca_field_eq(&y, &t.0, j2)) && ca_tail(&y, i + 1)
                        == payload@.subrange(t.1 as int, payload@.len() as int)))
            },
            Err(e) => {
                &&& e == DecodeError::Malformed
                &&& forall|y: CustomApplication| y.spec_encode() != payload@
            },
        },
{
    let n = payload.len();
    let mut cur = cur;
    let ghost mut acc = acc0;
    proof {
        assert forall|y: CustomApplication|
            y.spec_encode() == payload@ implies ca_tail(&y, k as int) == payload@.subrange(
            pos as int,
            n as int,
        ) by {}
    }
    match i {
            0usize => {
                let (v, vend) = match parse_i32_value(payload, vpos) {
                    Some(p) => p,
                    Option::None => {
                        proof {
                            lemma_nofield_text_case(
                                payload@,
                                n as int,
                                pos as int,
                                vpos as int,
                                k as int,
                                0,
                            );
                        }
                        return Err(DecodeError::Malformed);
                    },
                };
                let ghost oldc = cur;
                cur.text_case = Some(v);
                proof {
                    lemma_step_text_case(
                        payload@,
                        n as int,
                        pos as int,
                        vpos as int,
                        vend as int,
                        k as int,
                        0,
                        &oldc,
                        &cur,
                        acc,
                        v,
                    );
                    acc = acc + ca_field_at(&cur, 0);
                }
                return Ok((cur, vend, Ghost(acc)));
                
            },
            1usize => {
                let (v, vend) = match parse_bool_value(payload, vpos) {
                    Some(p) => p,
                    Option::None => {
                        proof {
                            lemma_nofield_top_text(
                                payload@,
                                n as int,
                                pos as int,
                                vpos as int,
                                k as int,
                                1,
                            );
                        }
                        return Err(DecodeError::Malformed);
                    },
                };
                let ghost oldc = cur;
                cur.top_text = Some(v);
                proof {
                    lemma_step_top_text(
                        payload@,
                        n as int,
                        pos as int,
                        vpos as int,
                        vend as int,
                        k as int,
                        1,
                        &oldc,
                        &cur,
                        acc,
                        v,
                    );
                    acc = acc + ca_field_at(&cur, 1);
                }
                return Ok((cur, vend, Ghost(acc)));
                
            },
            2usize => {
                let (v, vend) = match parse_i32_value(payload, vpos) {
                    Some(p) => p,
                    Option::None => {
                        proof {
                            lemma_nofield_text_offset(
                                payload@,
                                n as int,
                                pos as int,
                                vpos as int,
                                k as int,
                                2,
                            );
                        }
                        return Err(DecodeError::Malformed);
                    },
                };
                let ghost oldc = cur;
                cur.text_offset = Some(v);
                proof {
                    lemma_step_text_offset(
                        payload@,
                        n as int,
                        pos as int,
                        vpos as int,
                        vend as int,
                        k as int,
                        2,
                        &oldc,
                        &cur,
                        acc,
                        v,
                    );
                    acc = acc + ca_field_at(&cur, 2);
                }
                return Ok((cur, vend, Ghost(acc)));
                
            },
            3usize => {
                let (v, vend) = match parse_bool_value(payload, vpos) {
                    Some(p) => p,
                    Option::None => {
                        proof {
                            lemma_nofield_center(
                                payload@,
                                n as int,
                                pos as int,
                                vpos as int,
                                k as int,
                                3,
                            );
                        }
                        return Err(DecodeError::Malformed);
                    },
                };
                let ghost oldc = cur;
                cur.center = Some(v);
                proof {
                    lemma_step_center(
                        payload@,
                        n as int,
                        pos as int,
                        vpos as int,
                        vend as int,
                        k as int,
                        3,
                        &oldc,
                        &cur,
                        acc,
                        v,
                    );
                    acc = acc + ca_field_at(&cur, 3);
                }
                return Ok((cur, vend, Ghost(acc)));
                
            },
            4usize => {
                let (v, vend) = match parse_str_value(payload, vpos) {
                    Some(p) => p,
                    Option::None => {
                        proof {
                            lemma_nofield_color(
                                payload@,
                                n as int,
                                pos as int,
                                vpos as int,
                                k as int,
                                4,
                            );
                        }
                        return Err(DecodeError::Malformed);
                    },
                };
                let ghost oldc = cur;
                cur.color = Some(v);
                proof {
                    lemma_step_color(
                        payload@,
                        n as int,
                        pos as int,
                        vpos as int,
                        vend as int,
                        k as int,
                        4,
                        &oldc,
                        &cur,
                        acc,
                        &v,
                    );
                    acc = acc + ca_field_at(&cur, 4);
                }
                return Ok((cur, vend, Ghost(acc)));
                
            },
            5usize => {
                let (v, vend) = match parse_str_value(payload, vpos) {
                    Some(p) => p,
                    Option::None => {
                        proof {
                            lemma_nofield_gradient(
                                payload@,
                                n as int,
                                pos as int,
                                vpos as int,
                                k as int,
                                5,
                            );
                        }
                        return Err(DecodeError::Malformed);
                    },
                };
                let ghost oldc = cur;
                cur.gradient = Some(v);
                proof {
                    lemma_step_gradient(
                        payload@,
                        n as int,
                        pos as int,
                        vpos as int,
                        vend as int,
                        k as int,
                        5,
                        &oldc,
                        &cur,
                        acc,
                        &v,
                    );
                    acc = acc + ca_field_at(&cur, 5);
                }
                return Ok((cur, vend, Ghost(acc)));
                
            },
            6usize => {
                let (v, vend) = match parse_i32_value(payload, vpos) {
                    Some(p) => p,
                    Option::None => {
                        proof {
                            lemma_nofield_blink_text(
                                payload@,
                                n as int,
                                pos as int,
                                vpos as int,
                                k as int,
                                6,
                            );
                        }
                        return Err(DecodeError::Malformed);
                    },
                };
                let ghost oldc = cur;
                cur.blink_text = Some(v);
                proof {
                    lemma_step_blink_text(
                        payload@,
                        n as int,
                        pos as int,
                        vpos as int,
                        vend as int,
                        k as int,
                        6,
                        &oldc,
                        &cur,
                        acc,
                        v,
                    );
                    acc = acc + ca_field_at(&cur, 6);
                }
                return Ok((cur, vend, Ghost(acc)));
                
            },
            7usize => {
                let (v, vend) = match parse_i32_value(payload, vpos) {
                    Some(p) => p,
                    Option::None => {
                        proof {
                            lemma_nofield_fade_text(
                                payload@,
                                n as int,
                                pos as int,
                                vpos as int,
                                k as int,
                                7,
                            );
                        }
                        return Err(DecodeError::Malformed);
                    },
                };
                let ghost oldc = cur;
                cur.fade_text = Some(v);
                proof {
                    lemma_step_fade_text(
                        payload@,
                        n as int,
                        pos as int,
                        vpos as int,
                        vend as int,
                        k as int,
                        7,
                        &oldc,
                        &cur,
                        acc,
                        v,
                    );
                    acc = acc + ca_field_at(&cur, 7);
                }
                return Ok((cur, vend, Ghost(acc)));
                
            },
            8usize => {
                let (v, vend) = match parse_str_value(payload, vpos) {
                    Some(p) => p,
                    Option::None => {
                        proof {
                            lemma_nofield_background(
                                payload@,
                                n as int,
                                pos as int,
                                vpos as int,
                                k as int,
                                8,
                            );
                        }
                        return Err(DecodeError::Malformed);
                    },
                };
                let ghost oldc = cur;
                cur.background = Some(v);
                proof {
                    lemma_step_background(
                        payload@,
                        n as int,
                        pos as int,
                        vpos as int,
                        vend as int,
                        k as int,
                        8,
                        &oldc,
                        &cur,
                        acc,
                        &v,
                    );
                    acc = acc + ca_field_at(&cur, 8);
                }
                return Ok((cur, vend, Ghost(acc)));
                
            },
            9usize => {
                let (v, vend) = match parse_bool_value(payload, vpos) {
                    Some(p) => p,
                    Option::None => {
                        proof {
                            lemma_nofield_rainbow(
                                payload@,
                                n as int,
                                pos as int,
                                vpos as int,
                                k as int,
                                9,
                            );
                        }
                        return Err(DecodeError::Malformed);
                    },
                };
                let ghost oldc = cur;
                cur.rainbow = Some(v);
                proof {
                    lemma_step_rainbow(
                        payload@,
                        n as int,
                        pos as int,
                        vpos as int,
                        vend as int,
                        k as int,
                        9,
                        &oldc,
                        &cur,
                        acc,
                        v,
                    );
                    acc = acc + ca_field_at(&cur, 9);
                }
                return Ok((cur, vend, Ghost(acc)));
                
            },
            10usize => {
                let (v, vend) = match parse_str_value(payload, vpos) {
                    Some(p) => p,
                    Option::None => {
                        proof {
                            lemma_nofield_icon(
                                payload@,
                                n as int,
                                pos as int,
                                vpos as int,
                                k as int,
                                10,
                            );
                        }
                        return Err(DecodeError::Malformed);
                    },
                };
                let ghost oldc = cur;
                cur.icon = Some(v);
                proof {
                    lemma_step_icon(
                        payload@,
                        n as int,
                        pos as int,
                        vpos as int,
                        vend as int,
                        k as int,
                        10,
                        &oldc,
                        &cur,
                        acc,
                        &v,
                    );
                    acc = acc + ca_field_at(&cur, 10);
                }
                return Ok((cur, vend, Ghost(acc)));
                
            },
            11usize => {
                let (v, vend) = match parse_i32_value(payload, vpos) {
                    Some(p) => p,
                    Option::None => {
                        proof {
                            lemma_nofield_push_icon(
                                payload@,
                                n as int,
                                pos as int,
                                vpos as int,
                                k as int,
                                11,
                            );
                        }
                        return Err(DecodeError::Malformed);
                    },
                };
                let ghost oldc = cur;
                cur.push_icon = Some(v);
                proof {
                    lemma_step_push_icon(
                        payload@,
                        n as int,
                        pos as int,
                        vpos as int,
                        vend as int,
                        k as int,
                        11,
                        &oldc,
                        &cur,
                        acc,
                        v,
                    );
                    acc = acc + ca_field_at(&cur, 11);
                }
                return Ok((cur, vend, Ghost(acc)));
                
            },
            12usize => {
                let (v, vend) = match parse_i32_value(payload, vpos) {
                    Some(p) => p,
                    Option::None => {
                        proof {
                            lemma_nofield_repeat(
                                payload@,
                                n as int,
                                pos as int,
                                vpos as int,
                                k as int,
                                12,
                            );
                        }
                        return Err(DecodeError::Malformed);
                    },
                };
                let ghost oldc = cur;
                cur.repeat = Some(v);
                proof {
                    lemma_step_repeat(
                        payload@,
                        n as int,
                        pos as int,
                        vpos as int,
                        vend as int,
                        k as int,
                        12,
                        &oldc,
                        &cur,
                        acc,
                        v,
                    );
                    acc = acc + ca_field_at(&cur, 12);
                }
                return Ok((cur, vend, Ghost(acc)));
                
            },
            13usize => {
                let (v, vend) = match parse_i32_value(payload, vpos) {
                    Some(p) => p,
                    Option::None => {
                        proof {
                            lemma_nofield_duration(
                                payload@,
                                n as int,
                                pos as int,
                                vpos as int,
                                k as int,
                                13,
                            );
                        }
                        return Err(DecodeError::Malformed);
                    },
                };
                let ghost oldc = cur;
                cur.duration = Some(v);
                proof {
                    lemma_step_duration(
                        payload@,
                        n as int,
                        pos as int,
                        vpos as int,
                        vend as int,
                        k as int,
                        13,
                        &oldc,
                        &cur,
                        acc,
                        v,
                    );
                    acc = acc + ca_field_at(&cur, 13);
                }
                return Ok((cur, vend, Ghost(acc)));
                
            },
            _ => {
                proof {
                    assert(i == 14);
                }
                let (v, vend) = match parse_i32_value(payload, vpos) {
                    Some(p) => p,
                    Option::None => {
                        proof {
                            lemma_nofield_life_time(
                                payload@,
                                n as int,
                                pos as int,
                                vpos as int,
                                k as int,
                                14,
                            );
                        }
                        return Err(DecodeError::Malformed);
                    },
                };
                let ghost oldc = cur;
                cur.life_time = Some(v);
                proof {
                    lemma_step_life_time(
                        payload@,
                        n as int,
                        pos as int,
                        vpos as int,
                        vend as int,
                        k as int,
                        14,
                        &oldc,
                        &cur,
                        acc,
                        v,
                    );
                    acc = acc + ca_field_at(&cur, 14);
                }
                return Ok((cur, vend, Ghost(acc)));
                
            },
    }
}

} // verus!

//! Meter acquisition: turning the bytes fetched from the meter bridge into
//! a consumption value. The binary protocol itself is decoded by the
//! `sml-rs` crate behind trusted wrappers; everything after those calls is
//! verified.
use vstd::prelude::*;

use crate::dto::Consumption;

verus! {

/// One value from the meter's list of readings: the object identifier that
/// names the measured quantity, and the value when it was carried as a
/// 32-bit integer.
pub struct ReadingEntry {
    pub obj_name: Vec<u8>,
    pub value: Option<i32>,
}

impl DeepView for ReadingEntry {
    type V = (Seq<u8>, Option<i32>);

    open spec fn deep_view(&self) -> (Seq<u8>, Option<i32>) {
        (self.obj_name@, self.value)
    }
}

/// One parsed protocol message: either the list-of-readings response or
/// some other message kind the pipeline does not read.
pub enum MeterMessage {
    ListResponse(Vec<ReadingEntry>),
    Other,
}

impl DeepView for MeterMessage {
    type V = Option<Seq<(Seq<u8>, Option<i32>)>>;

    open spec fn deep_view(&self) -> Option<Seq<(Seq<u8>, Option<i32>)>> {
        match self {
            MeterMessage::ListResponse(entries) => Some(entries.deep_view()),
            MeterMessage::Other => Option::None,
        }
    }
}

/// Why a meter acquisition cycle produced no reading. All of these fail the
/// cycle only; the next scheduled tick starts afresh.
#[derive(Clone, Copy, PartialEq, Eq, Structural, Debug)]
pub enum MeterError {
    /// The response framed no protocol message, or more than one.
    NotExactlyOneFrame,
    /// The single frame did not survive transport decoding.
    FrameDecode,
    /// The frame's contents did not parse as protocol messages.
    Parse,
    /// Fewer than two messages: the list-of-readings response is missing.
    TooFewMessages,
    /// The second message is not a list-of-readings response.
    WrongStructure,
    /// No entry carries the current-active-power object identifier.
    NoPowerEntry,
}

/// What the transport layer of `sml-rs` extracts from a response body:
/// each frame's bytes, or nothing for a frame that failed its checksum or
/// escaping.
pub uninterp spec fn sml_frames(body: Seq<u8>) -> Seq<Option<Seq<u8>>>;

/// What the parser of `sml-rs` reads from one frame: for each protocol
/// message, the readings of a list response (object identifier and 32-bit
/// integer value, if that is what the entry held), or nothing for another
/// message kind. `None` when the frame does not parse.
pub uninterp spec fn sml_messages(frame: Seq<u8>) -> Option<
    Seq<Option<Seq<(Seq<u8>, Option<i32>)>>>,
>;

/// Relies on `sml_rs::transport::decode`: splits a byte stream into
/// escaped, checksummed frames; the result depends on the bytes alone.
#[verifier::external_body]
fn decode_frames(body: &Vec<u8>) -> (r: Vec<Option<Vec<u8>>>)
    ensures
        r.deep_view() == sml_frames(body@),
{
    sml_rs::transport::decode(body.iter().cloned()).into_iter().map(|m| m.ok()).collect()
}

/// Relies on `sml_rs::parser::complete::parse`: reads the protocol
/// messages of one frame; the result depends on the bytes alone.
#[verifier::external_body]
fn parse_frame(frame: &Vec<u8>) -> (r: Option<Vec<MeterMessage>>)
    ensures
        match r {
            Some(msgs) => sml_messages(frame@) == Some(msgs.deep_view()),
            None => sml_messages(frame@) is None,
        },
{
    match sml_rs::parser::complete::parse(frame.as_slice()) {
        Ok(file) => Some(file.messages.into_iter().map(|m| match m.message_body {
            sml_rs::parser::complete::MessageBody::GetListResponse(g) => MeterMessage::ListResponse(
                g.val_list.into_iter().map(|e| ReadingEntry {
                    obj_name: e.obj_name.to_vec(),
                    value: match e.value { sml_rs::parser::common::Value::I32(v) => Some(v), _ => Option::None },
                }).collect(),
            ),
            _ => MeterMessage::Other,
        }).collect()),
        Err(_) => Option::None,
    }
}

/// The object identifier of the current active power reading.
pub open spec fn spec_power_obis() -> Seq<u8> {
    seq![1u8, 0u8, 16u8, 7u8, 0u8, 255u8]
}

fn power_obis() -> (r: Vec<u8>)
    ensures
        r@ == spec_power_obis(),
{
    let r: Vec<u8> = vec![1u8, 0u8, 16u8, 7u8, 0u8, 255u8];
    proof {
        assert(r@ =~= spec_power_obis());
    }
    r
}

/// The value of the first entry named by the power object identifier; an
/// integer-typed entry yields its value, any other matching entry counts
/// as zero.
pub open spec fn spec_find_power(entries: Seq<(Seq<u8>, Option<i32>)>) -> Option<i32>
    decreases entries.len(),
{
    if entries.len() == 0 {
        Option::None
    } else if entries[0].0 == spec_power_obis() {
        Some(
            match entries[0].1 {
                Some(v) => v,
                Option::None => 0,
            },
        )
    } else {
        spec_find_power(entries.drop_first())
    }
}

/// The consumption a parsed message list yields: the second message must be
/// the list-of-readings response, and it must name the power reading.
pub open spec fn spec_consumption_of(msgs: Seq<Option<Seq<(Seq<u8>, Option<i32>)>>>) -> Result<
    Consumption,
    MeterError,
> {
    if msgs.len() < 2 {
        Err(MeterError::TooFewMessages)
    } else {
        match msgs[1] {
            Option::None => Err(MeterError::WrongStructure),
            Some(entries) => match spec_find_power(entries) {
                Some(w) => Ok(Consumption { consumption: w }),
                Option::None => Err(MeterError::NoPowerEntry),
            },
        }
    }
}

fn bytes_eq(a: &Vec<u8>, b: &Vec<u8>) -> (r: bool)
    ensures
        r == (a@ == b@),
{
    if a.len() != b.len() {
        return false;
    }
    let mut i: usize = 0;
    while i < a.len()
        invariant
            0 <= i <= a@.len(),
            a@.len() == b@.len(),
            forall|j: int| 0 <= j < i ==> a@[j] == b@[j],
        decreases a@.len() - i,
    {
        if a[i] != b[i] {
            return false;
        }
        i += 1;
    }
    proof {
        assert(a@ =~= b@);
    }
    true
}

/// Scans a parsed message list for the current active power reading.
/// Exactly two or more messages are required, the second being the
/// list-of-readings response; the first matching entry decides.
pub fn consumption_from_messages(msgs: &Vec<MeterMessage>) -> (r: Result<Consumption, MeterError>)
    ensures
        r == spec_consumption_of(msgs.deep_view()),
{
    proof {
        assert(msgs.deep_view().len() == msgs@.len());
    }
    if msgs.len() < 2 {
        return Err(MeterError::TooFewMessages);
    }
    proof {
        assert(msgs.deep_view()[1] == msgs@[1].deep_view());
    }
    let entries = match &msgs[1] {
        MeterMessage::Other => {
            return Err(MeterError::WrongStructure);
        },
        MeterMessage::ListResponse(entries) => entries,
    };
    let ghost eview = msgs@[1].deep_view()->Some_0;
    proof {
        assert(eview == entries.deep_view());
        assert(entries.deep_view().len() == entries@.len());
    }
    let target = power_obis();
    proof {
        assert(eview.skip(0) =~= eview);
    }
    let mut i: usize = 0;
    while i < entries.len()
        invariant
            0 <= i <= entries@.len(),
            eview == entries.deep_view(),
            eview.len() == entries@.len(),
            msgs.deep_view().len() >= 2,
            msgs.deep_view()[1] == Some(eview),
            target@ == spec_power_obis(),
            spec_find_power(eview) == spec_find_power(eview.skip(i as int)),
            forall|j: int| 0 <= j < entries@.len() ==> eview[j] == #[trigger] entries@[j].deep_view(),
        decreases entries@.len() - i,
    {
        proof {
            assert(eview.skip(i as int)[0] == eview[i as int]);
        }
        if bytes_eq(&entries[i].obj_name, &target) {
            let w = match entries[i].value {
                Some(v) => v,
                Option::None => 0,
            };
            proof {
                let t = eview.skip(i as int);
                assert(t.len() > 0);
                assert(t[0] == eview[i as int]);
                assert(eview[i as int] == entries@[i as int].deep_view());
                assert(t[0].0 == spec_power_obis());
                assert(t[0].1 == entries@[i as int].value);
                assert(spec_find_power(t) == Some(w));
                assert(spec_find_power(eview) == Some(w));
            }
            return Ok(Consumption { consumption: w });
        }
        proof {
            assert(eview.skip(i as int).drop_first() =~= eview.skip(i + 1));
        }
        i += 1;
    }
    proof {
        assert(eview.skip(entries@.len() as int) =~= Seq::<(Seq<u8>, Option<i32>)>::empty());
    }
    Err(MeterError::NoPowerEntry)
}

/// What a whole meter cycle yields from the fetched response body, over the
/// trusted reading of the binary protocol: exactly one frame, decoded and
/// parsed, then scanned for the power reading.
pub open spec fn spec_extract(body: Seq<u8>) -> Result<Consumption, MeterError> {
    if sml_frames(body).len() != 1 {
        Err(MeterError::NotExactlyOneFrame)
    } else {
        match sml_frames(body)[0] {
            Option::None => Err(MeterError::FrameDecode),
            Some(frame) => match sml_messages(frame) {
                Option::None => Err(MeterError::Parse),
                Some(msgs) => spec_consumption_of(msgs),
            },
        }
    }
}

/// Runs transport decoding, parsing and extraction on a fetched response
/// body. Every failure is typed and fails only this cycle.
pub fn extract_consumption(body: &Vec<u8>) -> (r: Result<Consumption, MeterError>)
    ensures
        r == spec_extract(body@),
{
    let frames = decode_frames(body);
    proof {
        assert(frames.deep_view().len() == frames@.len());
    }
    if frames.len() != 1 {
        return Err(MeterError::NotExactlyOneFrame);
    }
    proof {
        assert(frames.deep_view()[0] == frames@[0].deep_view());
    }
    let frame = match &frames[0] {
        Option::None => {
            return Err(MeterError::FrameDecode);
        },
        Some(frame) => frame,
    };
    proof {
        assert(sml_frames(body@)[0] == Some(frame@));
    }
    match parse_frame(frame) {
        Option::None => Err(MeterError::Parse),
        Some(msgs) => consumption_from_messages(&msgs),
    }
}

} // verus!

//! The per-connection protocol: inbound text commands, the messages each
//! one produces, and what one tick of the live pusher sends.
use vstd::prelude::*;

use crate::reading::{data_views, time_ascending, response_views, Data, DataView, Response, ResponseView};
use crate::store::{Store, StoreError};

verus! {

/// The byte that separates the words of a command.
pub const SPACE: u8 = 32;

/// An inbound command, as read from one text frame.
#[derive(Clone, Copy, Debug, PartialEq, Eq, Structural)]
pub enum Command {
    /// Send every stored reading in one message.
    Sync,
    /// Send each reading at or after this second, one message each.
    Since(i64),
    /// Anything else: nothing is sent.
    Ignore,
}

pub open spec fn sync_word() -> Seq<u8> {
    seq![115u8, 121u8, 110u8, 99u8]
}

/// `since` followed by one space.
pub open spec fn since_prefix() -> Seq<u8> {
    seq![115u8, 105u8, 110u8, 99u8, 101u8, 32u8]
}

/// The index of the first space in `s` at or after `from`, or the length of
/// `s` where there is none.
pub open spec fn space_or_end(s: Seq<u8>, from: int) -> int
    decreases s.len() - from,
{
    if from >= s.len() {
        s.len() as int
    } else if s[from] == SPACE {
        from
    } else {
        space_or_end(s, from + 1)
    }
}

/// For a frame of two words, `since` and one more, that second word.
pub open spec fn since_field(s: Seq<u8>) -> Option<Seq<u8>> {
    if s.len() >= 6 && s.take(6) == since_prefix() && space_or_end(s, 6) == s.len() {
        Some(s.skip(6))
    } else {
        None
    }
}

/// The seconds since the epoch of a date-time text, as chrono reads it.
pub uninterp spec fn utc_seconds_of(text: Seq<u8>) -> Option<i64>;

/// Relies on chrono's `FromStr` for `DateTime<Utc>` (a relaxed RFC 3339)
/// and `DateTime::timestamp`: the seconds since the epoch of the text, read
/// as UTF-8 with invalid bytes replaced, or `None` where it does not parse.
#[verifier::external_body]
fn parse_utc_seconds(text: &[u8]) -> (r: Option<i64>)
    ensures
        r == utc_seconds_of(text@),
{
    let s = String::from_utf8_lossy(text);
    s.parse::<chrono::DateTime<chrono::Utc>>().ok().map(|t| t.timestamp())
}

/// The command a frame holds, given what its date-time word reads as.
pub open spec fn command_given(s: Seq<u8>, stamp: Option<i64>) -> Command {
    if s == sync_word() {
        Command::Sync
    } else if since_field(s) is Some && stamp is Some {
        Command::Since(stamp->0)
    } else {
        Command::Ignore
    }
}

/// The command a frame holds.
pub open spec fn command_of(s: Seq<u8>) -> Command {
    command_given(
        s,
        match since_field(s) {
            Some(f) => utc_seconds_of(f),
            None => None,
        },
    )
}

fn space_from(s: &[u8], from: usize) -> (r: usize)
    requires
        from <= s@.len(),
    ensures
        r as int == space_or_end(s@, from as int),
        from <= r <= s@.len(),
{
    proof {
        lemma_space_or_end_bounds(s@, from as int);
    }
    let mut i = from;
    while i < s.len() && s[i] != SPACE
        invariant
            from <= i <= s@.len(),
            space_or_end(s@, from as int) == space_or_end(s@, i as int),
        decreases s@.len() - i,
    {
        i = i + 1;
    }
    i
}

/// The second word of a frame that is `since`, one space and one more word.
pub fn since_argument(frame: &[u8]) -> (r: Option<Vec<u8>>)
    ensures
        match r {
            Some(f) => since_field(frame@) == Some(f@),
            None => since_field(frame@) is None,
        },
{
    if frame.len() < 6 || frame[0] != 115u8 || frame[1] != 105u8 || frame[2] != 110u8
        || frame[3] != 99u8 || frame[4] != 101u8 || frame[5] != SPACE {
        proof {
            if frame@.len() >= 6 {
                assert(frame@.take(6)[0] == frame@[0]);
                assert(frame@.take(6)[1] == frame@[1]);
                assert(frame@.take(6)[2] == frame@[2]);
                assert(frame@.take(6)[3] == frame@[3]);
                assert(frame@.take(6)[4] == frame@[4]);
                assert(frame@.take(6)[5] == frame@[5]);
                assert(frame@.take(6) != since_prefix());
            }
        }
        return None;
    }
    assert(frame@.take(6) =~= since_prefix());
    if space_from(frame, 6) != frame.len() {
        return None;
    }
    let mut out: Vec<u8> = Vec::new();
    let mut i: usize = 6;
    while i < frame.len()
        invariant
            6 <= i <= frame@.len(),
            out@ == frame@.subrange(6, i as int),
        decreases frame@.len() - i,
    {
        out.push(frame[i]);
        proof {
            assert(frame@.subrange(6, i + 1) =~= frame@.subrange(6, i as int).push(frame@[i as int]));
        }
        i = i + 1;
    }
    assert(frame@.subrange(6, frame@.len() as int) =~= frame@.skip(6));
    Some(out)
}

proof fn lemma_space_or_end_bounds(s: Seq<u8>, from: int)
    requires
        0 <= from <= s.len(),
    ensures
        from <= space_or_end(s, from) <= s.len(),
    decreases s.len() - from,
{
    if from < s.len() && s[from] != SPACE {
        lemma_space_or_end_bounds(s, from + 1);
    }
}

/// The command of a frame, given what its date-time word reads as.
pub fn command_with(frame: &[u8], stamp: Option<i64>) -> (r: Command)
    ensures
        r == command_given(frame@, stamp),
{
    if frame.len() == 4 && frame[0] == 115u8 && frame[1] == 121u8 && frame[2] == 110u8
        && frame[3] == 99u8 {
        assert(frame@ =~= sync_word());
        return Command::Sync;
    }
    assert(frame@ != sync_word()) by {
        if frame@ == sync_word() {
            assert(frame@[0] == 115u8);
        }
    }
    let has_field = since_argument(frame).is_some();
    match stamp {
        Some(t) => if has_field {
            Command::Since(t)
        } else {
            Command::Ignore
        },
        None => Command::Ignore,
    }
}

/// The command of an inbound text frame: `sync`, or `since`, one space and
/// one date-time word that parses; anything else is ignored.
pub fn parse_command(frame: &[u8]) -> (r: Command)
    ensures
        r == command_of(frame@),
{
    let stamp = match since_argument(frame) {
        Some(f) => parse_utc_seconds(f.as_slice()),
        None => None,
    };
    command_with(frame, stamp)
}

/// The messages a command sends, given the readings it reads.
pub open spec fn responses_spec(cmd: Command, readings: Seq<DataView>) -> Seq<ResponseView> {
    match cmd {
        Command::Sync => seq![ResponseView::Sync(readings)],
        Command::Since(_) => readings.map_values(|d: DataView| ResponseView::NewData(d)),
        Command::Ignore => Seq::empty(),
    }
}

/// The messages a command sends, given the readings it read from the store:
/// one `Sync` with all of them, one `NewData` for each, or none.
pub fn responses_for(cmd: Command, readings: Vec<Data>) -> (r: Vec<Response>)
    ensures
        response_views(r@) == responses_spec(cmd, data_views(readings@)),
        r@.len() == responses_spec(cmd, data_views(readings@)).len(),
{
    match cmd {
        Command::Sync => {
            let ghost v = data_views(readings@);
            let mut out: Vec<Response> = Vec::new();
            out.push(Response::Sync(readings));
            assert(response_views(out@) =~= seq![ResponseView::Sync(v)]);
            out
        },
        Command::Since(_) => {
            let mut out: Vec<Response> = Vec::new();
            let mut i: usize = 0;
            while i < readings.len()
                invariant
                    0 <= i <= readings@.len(),
                    response_views(out@) =~= data_views(readings@.take(i as int)).map_values(
                        |d: DataView| ResponseView::NewData(d),
                    ),
                decreases readings@.len() - i,
            {
                let ghost prev = out@;
                out.push(Response::NewData(readings[i].clone_data()));
                proof {
                    assert(response_views(out@) =~= response_views(prev).push(ResponseView::NewData(readings@[i as int]@)));
                    assert(readings@.take(i + 1) =~= readings@.take(i as int).push(readings@[i as int]));
                    assert(data_views(readings@.take(i + 1)) =~= data_views(readings@.take(i as int)).push(readings@[i as int]@));
                }
                i = i + 1;
            }
            assert(readings@.take(readings@.len() as int) =~= readings@);
            out
        },
        Command::Ignore => Vec::new(),
    }
}

/// The messages that answer one inbound text frame, read from the store at
/// the time of the call: for `sync` one `Sync` message with every reading in
/// ascending time order; for `since t` one `NewData` message per reading at
/// or after second `t`, in ascending time order; else none.
pub fn handle_frame(store: &Store, frame: &[u8]) -> (r: Vec<Response>)
    ensures
        ({
            let rs = response_views(r@);
            match command_of(frame@) {
                Command::Sync => exists|v: Seq<DataView>|
                    rs == seq![ResponseView::Sync(v)] && time_ascending(v),
                Command::Since(t) => exists|v: Seq<DataView>|
                    rs == v.map_values(|d: DataView| ResponseView::NewData(d)) && time_ascending(v)
                        && (forall|i: int| 0 <= i < v.len() ==> t <= #[trigger] v[i].timestamp),
                Command::Ignore => r@.len() == 0,
            }
        }),
{
    let cmd = parse_command(frame);
    let readings = match cmd {
        Command::Sync => store.scan_all(),
        Command::Since(t) => store.scan_from(t),
        Command::Ignore => Vec::new(),
    };
    let ghost v = data_views(readings@);
    let r = responses_for(cmd, readings);
    assert(response_views(r@) == responses_spec(cmd, v));
    r
}

/// The message one tick of the live pusher sends, given what the store's
/// last reading was: that reading, or nothing where the store is empty or
/// the read failed.
pub fn push_response(last: Result<Option<Data>, StoreError>) -> (r: Option<Response>)
    ensures
        match r {
            Some(x) => push_spec(last) == Some(x@),
            None => push_spec(last) is None,
        },
{
    match last {
        Ok(Some(d)) => Some(Response::NewData(d)),
        _ => None,
    }
}

/// One tick of the live pusher: the last reading as a `NewData` message, or
/// nothing where the store is empty or cannot be read.
pub fn push_tick(store: &Store) -> (r: Option<Response>)
    ensures
        r matches Some(x) ==> x is NewData,
{
    let last = store.last();
    push_response(last)
}

} // verus!

verus! {

/// A frame other than `sync` whose `since` word is missing or does not read
/// as a date-time is ignored: it sends nothing, whatever the store holds.
pub proof fn lemma_malformed_ignored(frame: Seq<u8>, readings: Seq<DataView>)
    requires
        frame != sync_word(),
        match since_field(frame) {
            Some(f) => utc_seconds_of(f) is None,
            None => true,
        },
    ensures
        command_of(frame) == Command::Ignore,
        responses_spec(command_of(frame), readings).len() == 0,
{
}

/// `since t` sends one `NewData` message per reading read, in the order read.
pub proof fn lemma_since_streams(t: i64, readings: Seq<DataView>)
    ensures
        responses_spec(Command::Since(t), readings).len() == readings.len(),
        forall|i: int|
            0 <= i < readings.len() ==> #[trigger] responses_spec(Command::Since(t), readings)[i]
                == ResponseView::NewData(readings[i]),
{
}

/// `sync` sends exactly one message, holding exactly the readings read.
pub proof fn lemma_sync_complete(readings: Seq<DataView>)
    ensures
        responses_spec(Command::Sync, readings) == seq![ResponseView::Sync(readings)],
{
}

/// A tick's push depends on that tick's read alone: a failed read sends
/// nothing, and a later successful read sends its reading whatever came
/// before.
pub proof fn lemma_push_isolated(e: StoreError, d: Data)
    ensures
        ({
            let failed: Result<Option<Data>, StoreError> = Err(e);
            let read: Result<Option<Data>, StoreError> = Ok(Some(d));
            push_spec(failed) is None && push_spec(read) == Some(ResponseView::NewData(d@))
        }),
{
}

/// The message one push tick sends, given what its read returned.
pub open spec fn push_spec(last: Result<Option<Data>, StoreError>) -> Option<ResponseView> {
    match last {
        Ok(Some(d)) => Some(ResponseView::NewData(d@)),
        _ => None,
    }
}

} // verus!

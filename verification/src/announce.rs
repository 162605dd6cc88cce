//! How often the messages of discovery are sent, since datagrams get lost.

use crate::ssdp;
use crate::text;
use vstd::prelude::*;

verus! {

/// How many seconds lie between two bursts of announcements.
pub const ANNOUNCE_EVERY_SECS: u64 = 180;

/// How many milliseconds pass after each announcement that the server is there.
pub const ALIVE_PAUSE_MS: u64 = 200;

/// How many milliseconds pass after each answer to a search.
pub const ANSWER_PAUSE_MS: u64 = 100;

/// How many milliseconds pass between two rounds of leaving.
pub const BYEBYE_PAUSE_MS: u64 = 100;

/// A message to send, and how many milliseconds to wait after it.
pub struct Sending {
    pub message: String,
    pub pause_ms: u64,
}

impl View for Sending {
    type V = (Seq<char>, u64);

    open spec fn view(&self) -> (Seq<char>, u64) {
        (self.message@, self.pause_ms)
    }
}

/// The contents of a list of messages to send.
pub open spec fn sendings(v: Seq<Sending>) -> Seq<(Seq<char>, u64)> {
    v.map_values(|s: Sending| s@)
}

/// Each message three times in a row, with a pause after each time.
pub open spec fn three_times(messages: Seq<Seq<char>>, pause_ms: u64) -> Seq<(Seq<char>, u64)> {
    Seq::new(3 * messages.len(), |i: int| (messages[i / 3], pause_ms))
}

/// All messages in turn, with a pause after the last.
pub open spec fn one_round(messages: Seq<Seq<char>>, pause_ms: u64) -> Seq<(Seq<char>, u64)> {
    Seq::new(
        messages.len(),
        |i: int|
            (
                messages[i],
                if i == messages.len() - 1 {
                    pause_ms
                } else {
                    0
                },
            ),
    )
}

/// All messages in turn, three times over, with a pause between the rounds.
pub open spec fn three_rounds(messages: Seq<Seq<char>>, pause_ms: u64) -> Seq<(Seq<char>, u64)> {
    one_round(messages, pause_ms) + one_round(messages, pause_ms) + one_round(messages, 0)
}

/// Plans to send each message three times in a row.
pub fn repeat_each(messages: &Vec<String>, pause_ms: u64) -> (r: Vec<Sending>)
    ensures
        sendings(r@) == three_times(text::texts(messages@), pause_ms),
{
    let ghost all = text::texts(messages@);
    let ghost want = three_times(all, pause_ms);
    let mut r: Vec<Sending> = Vec::new();
    let mut i: usize = 0;
    while i < messages.len()
        invariant
            i <= messages@.len(),
            all == text::texts(messages@),
            want == three_times(all, pause_ms),
            sendings(r@) =~= want.take(3 * i),
        decreases messages@.len() - i,
    {
        assert(all[i as int] == messages@[i as int]@);
        let mut k: usize = 0;
        while k < 3
            invariant
                k <= 3,
                i < messages@.len(),
                all == text::texts(messages@),
                all[i as int] == messages@[i as int]@,
                want == three_times(all, pause_ms),
                sendings(r@) =~= want.take(3 * i + k),
            decreases 3 - k,
        {
            let ghost before = sendings(r@);
            let s = Sending { message: messages[i].as_str().to_owned(), pause_ms };
            let ghost it = s@;
            r.push(s);
            assert(sendings(r@) =~= before.push(it));
            assert((3 * i + k) / 3 == i);
            assert(want[3 * i + k] == it);
            k += 1;
        }
        i += 1;
    }
    assert(want.take(3 * i) =~= want);
    r
}

/// Plans to send all messages in turn, after what is planned already.
fn push_round(r: &mut Vec<Sending>, messages: &Vec<String>, pause_ms: u64)
    ensures
        sendings(final(r)@) == sendings(old(r)@) + one_round(text::texts(messages@), pause_ms),
{
    let ghost start = sendings(r@);
    let ghost all = text::texts(messages@);
    let ghost want = one_round(all, pause_ms);
    let mut i: usize = 0;
    while i < messages.len()
        invariant
            i <= messages@.len(),
            all == text::texts(messages@),
            want == one_round(all, pause_ms),
            sendings(r@) =~= start + want.take(i as int),
        decreases messages@.len() - i,
    {
        assert(all[i as int] == messages@[i as int]@);
        let ghost before = sendings(r@);
        let pause: u64 = if i == messages.len() - 1 {
            pause_ms
        } else {
            0
        };
        let s = Sending { message: messages[i].as_str().to_owned(), pause_ms: pause };
        let ghost it = s@;
        r.push(s);
        assert(sendings(r@) =~= before.push(it));
        assert(want[i as int] == it);
        i += 1;
    }
    assert(want.take(i as int) =~= want);
}

/// Plans to send all messages in turn, three times over.
pub fn repeat_all(messages: &Vec<String>, pause_ms: u64) -> (r: Vec<Sending>)
    ensures
        sendings(r@) == three_rounds(text::texts(messages@), pause_ms),
{
    let mut r: Vec<Sending> = Vec::new();
    push_round(&mut r, messages, pause_ms);
    push_round(&mut r, messages, pause_ms);
    push_round(&mut r, messages, 0);
    assert(sendings(r@) =~= three_rounds(text::texts(messages@), pause_ms));
    r
}

/// Plans the announcements that the server is there.
pub fn alive_plan(group: &str, location: &str, uuid: &str) -> (r: Vec<Sending>)
    ensures
        sendings(r@) == three_times(ssdp::alive_texts(group@, location@, uuid@), ALIVE_PAUSE_MS),
{
    let messages = ssdp::alive_messages(group, location, uuid);
    repeat_each(&messages, ALIVE_PAUSE_MS)
}

/// Plans the announcements that the server leaves.
pub fn byebye_plan(group: &str, uuid: &str) -> (r: Vec<Sending>)
    ensures
        sendings(r@) == three_rounds(ssdp::byebye_texts(group@, uuid@), BYEBYE_PAUSE_MS),
{
    let messages = ssdp::byebye_messages(group, uuid);
    repeat_all(&messages, BYEBYE_PAUSE_MS)
}

/// Plans the answers to a search, sent at `secs` seconds after 1970 began.
pub fn answer_plan(st: &str, secs: u64, location: &str, uuid: &str) -> (r: Vec<Sending>)
    requires
        secs < 253_402_300_800,
    ensures
        sendings(r@) == three_times(
            ssdp::answers(st@, ssdp::http_date_text(secs as int), location@, uuid@),
            ANSWER_PAUSE_MS,
        ),
{
    let messages = ssdp::answer_search(st, secs, location, uuid);
    repeat_each(&messages, ANSWER_PAUSE_MS)
}

/// Every message is sent three times, however it is repeated.
pub proof fn law_every_message_is_sent_three_times(
    messages: Seq<Seq<char>>,
    pause_ms: u64,
    j: int,
)
    requires
        0 <= j < messages.len(),
    ensures
        three_times(messages, pause_ms).len() == 3 * messages.len(),
        three_times(messages, pause_ms)[3 * j].0 == messages[j],
        three_times(messages, pause_ms)[3 * j + 1].0 == messages[j],
        three_times(messages, pause_ms)[3 * j + 2].0 == messages[j],
        three_rounds(messages, pause_ms).len() == 3 * messages.len(),
        three_rounds(messages, pause_ms)[j].0 == messages[j],
        three_rounds(messages, pause_ms)[messages.len() + j].0 == messages[j],
        three_rounds(messages, pause_ms)[2 * messages.len() + j].0 == messages[j],
{
}

/// A message that is repeated in a row is followed by a pause each time. Rounds
/// of messages have a pause between them, and none inside them or behind the
/// last.
pub proof fn law_pauses_stand_between(messages: Seq<Seq<char>>, pause_ms: u64, i: int)
    requires
        0 <= i < 3 * messages.len(),
    ensures
        three_times(messages, pause_ms)[i].1 == pause_ms,
        three_rounds(messages, pause_ms)[i].1 == if i == messages.len() - 1 || i == 2
            * messages.len() - 1 {
            pause_ms
        } else {
            0
        },
{
    let n = messages.len() as int;
    let a = one_round(messages, pause_ms);
    let c = one_round(messages, 0);
    let whole = three_rounds(messages, pause_ms);
    if i < n {
        assert(whole[i] == a[i]);
    } else if i < 2 * n {
        assert(whole[i] == a[i - n]);
    } else {
        assert(whole[i] == c[i - 2 * n]);
    }
}

} // verus!

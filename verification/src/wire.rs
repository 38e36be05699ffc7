//! Trusted boundary to the outside crates: DNS wire encoding and decoding
//! through rustdns, and resolver selection through rand. Each wrapper takes
//! and returns plain values; what rustdns computes is deterministic in the
//! wrapper's arguments, so it is given a name, and each contract states only
//! what the vendored source shows.
use vstd::prelude::*;

use crate::strutil::views;

verus! {

/// Whether rustdns can turn `name` into a wire-format TXT question: the
/// name normalizes under idna and fits the DNS label and name limits. A
/// function of the name alone; the message's random transaction id and the
/// EDNS payload size never decide failure.
pub uninterp spec fn txt_query_encodable(name: Seq<char>) -> bool;

/// What rustdns decodes from one DNS reply: `None` when the buffer is not
/// a well-formed message, otherwise the Display text of each answer
/// record, in answer order. A function of the buffer alone.
pub uninterp spec fn txt_answers_of(buf: Seq<u8>) -> Option<Seq<Seq<char>>>;

/// Relies on rustdns::Message: `default` (a fresh query message),
/// `try_add_question` (one question for `name`, QTYPE=TXT, QCLASS=IN),
/// `set_extension` (one EDNS(0) OPT record advertising `payload_size`
/// bytes), and `to_vec` (wire-format encoding). Fails, with the error's
/// text, exactly when the name cannot be encoded.
#[verifier::external_body]
pub(crate) fn build_txt_query(name: &str, payload_size: u16) -> (r: Result<Vec<u8>, String>)
    ensures
        r is Ok <==> txt_query_encodable(name@),
{
    let mut m = rustdns::Message::default();
    if let Err(e) = m.try_add_question(name, rustdns::types::Type::TXT,
        rustdns::types::Class::Internet) {
        return Err(e.to_string());
    }
    let mut ext = rustdns::types::Extension::default();
    ext.payload_size = payload_size;
    m.set_extension(ext);
    m.to_vec().map_err(|e| e.to_string())
}

/// Relies on rustdns::Message::from_slice and on the Display form of each
/// answer's resource (TXT data renders as quoted fragments joined by
/// spaces). Fails, with the error's text, exactly when the buffer does not
/// decode as a DNS message.
#[verifier::external_body]
pub(crate) fn parse_txt_answers(buf: &[u8]) -> (r: Result<Vec<String>, String>)
    ensures
        r is Ok <==> txt_answers_of(buf@) is Some,
        r is Ok ==> Some(views(r->Ok_0@)) == txt_answers_of(buf@),
{
    match rustdns::Message::from_slice(buf) {
        Ok(m) => Ok(m.answers.iter().map(|r| r.resource.to_string()).collect()),
        Err(e) => Err(e.to_string()),
    }
}

/// Relies on rand's Rng::gen_range over `0..n`: a value below `n`, chosen
/// uniformly from the thread-local generator. Nothing more is assumed of
/// the outcome.
#[verifier::external_body]
pub(crate) fn random_below(n: usize) -> (r: usize)
    requires
        n >= 1,
    ensures
        r < n,
{
    rand::Rng::gen_range(&mut rand::thread_rng(), 0..n)
}

} // verus!

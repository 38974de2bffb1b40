//! What the caller adds to a request: headers and a deadline.

use crate::service::MethodDef;
use crate::std_time::{
    duration_as_secs, duration_subsec_nanos, std_duration_secs, std_duration_subsec_nanos,
};
use crate::text::{decimal, push_decimal};
use vstd::prelude::*;

verus! {

/// The largest number that the value of a `grpc-timeout` header may hold:
/// eight digits.
pub const MAX_TIMEOUT_VALUE: u128 = 99_999_999;

/// The value of the `grpc-timeout` header for a deadline of `secs` seconds
/// and `nanos` nanoseconds: the time in the most precise unit in which it
/// takes at most eight digits, rounded down, and the letter of the unit.
/// No unit does where the hours take more than eight digits.
pub open spec fn grpc_timeout_text(secs: u64, nanos: u32) -> Option<Seq<char>> {
    let total = secs as nat * 1_000_000_000 + nanos as nat;
    if total <= 99_999_999 {
        Some(decimal(total) + "n"@)
    } else if total / 1_000 <= 99_999_999 {
        Some(decimal(total / 1_000) + "u"@)
    } else if total / 1_000_000 <= 99_999_999 {
        Some(decimal(total / 1_000_000) + "m"@)
    } else if secs <= 99_999_999 {
        Some(decimal(secs as nat) + "S"@)
    } else if secs / 60 <= 99_999_999 {
        Some(decimal((secs / 60) as nat) + "M"@)
    } else if secs / 3600 <= 99_999_999 {
        Some(decimal((secs / 3600) as nat) + "H"@)
    } else {
        None
    }
}

/// The number and the unit as the value of the header, where the number has
/// at most eight digits.
fn try_format(value: u128, unit: &str) -> (r: Option<String>)
    ensures
        match r {
            Some(text) => value <= 99_999_999 && text@ == decimal(value as nat) + unit@,
            None => value > 99_999_999,
        },
{
    // The timeout value has at most 8 digits, so this is the largest a
    // value can be before a bigger unit is needed.
    if value > MAX_TIMEOUT_VALUE {
        None
    } else {
        let mut text = String::new();
        push_decimal(&mut text, value);
        text.append(unit);
        Some(text)
    }
}

/// The value of the `grpc-timeout` header for a deadline of `secs` seconds
/// and `nanos` nanoseconds, or `None` where the deadline is too far away to
/// be said in eight digits of hours.
pub fn grpc_timeout_value(secs: u64, nanos: u32) -> (r: Option<String>)
    ensures
        match grpc_timeout_text(secs, nanos) {
            Some(text) => r matches Some(value) && value@ == text,
            None => r.is_none(),
        },
{
    let total: u128 = secs as u128 * 1_000_000_000 + nanos as u128;
    // pick the most precise unit in which the value has at most 8 digits
    if let Some(text) = try_format(total, "n") {
        return Some(text);
    }
    if let Some(text) = try_format(total / 1_000, "u") {
        return Some(text);
    }
    if let Some(text) = try_format(total / 1_000_000, "m") {
        return Some(text);
    }
    if let Some(text) = try_format(secs as u128, "S") {
        return Some(text);
    }
    if let Some(text) = try_format((secs / 60) as u128, "M") {
        return Some(text);
    }
    let minutes = secs / 60;
    if let Some(text) = try_format((minutes / 60) as u128, "H") {
        return Some(text);
    }
    None
}

/// The value of the `grpc-timeout` header for a deadline.
///
/// The deadline is at most 99,999,999 hours away: nothing further off can
/// be said, and it is more than eleven thousand years.
pub fn duration_to_grpc_timeout(duration: core::time::Duration) -> (value: String)
    requires
        std_duration_secs(duration) / 3600 <= 99_999_999,
    ensures
        Some(value@) == grpc_timeout_text(
            std_duration_secs(duration),
            std_duration_subsec_nanos(duration),
        ),
{
    let secs = duration_as_secs(&duration);
    let nanos = duration_subsec_nanos(&duration);
    match grpc_timeout_value(secs, nanos) {
        Some(value) => value,
        None => {
            proof {
                assert(false);
            }
            String::new()
        },
    }
}

/// The value of the `grpc-timeout` header for a deadline, or `None` where
/// the deadline is more than 99,999,999 hours away.
pub fn checked_grpc_timeout(duration: core::time::Duration) -> (r: Option<String>)
    ensures
        match grpc_timeout_text(
            std_duration_secs(duration),
            std_duration_subsec_nanos(duration),
        ) {
            Some(text) => r matches Some(value) && value@ == text,
            None => r.is_none(),
        },
{
    if duration_as_secs(&duration) / 3600 <= 99_999_999 {
        Some(duration_to_grpc_timeout(duration))
    } else {
        None
    }
}

/// The headers that every request carries, in the order in which they are
/// set: the content type, the user agent, the wish for trailers, and the
/// encodings sent and accepted.
pub fn baseline_headers() -> (headers: Vec<(&'static str, &'static str)>)
    ensures
        headers@.len() == 5,
        headers@[0].0@ == "content-type"@ && headers@[0].1@ == "application/grpc"@,
        headers@[1].0@ == "user-agent"@ && headers@[1].1@ == "ntex-grpc/1.0.0"@,
        headers@[2].0@ == "te"@ && headers@[2].1@ == "trailers"@,
        headers@[3].0@ == "grpc-encoding"@ && headers@[3].1@ == "identity"@,
        headers@[4].0@ == "grpc-accept-encoding"@ && headers@[4].1@ == "identity"@,
{
    let mut headers = Vec::new();
    headers.push(("content-type", "application/grpc"));
    headers.push(("user-agent", "ntex-grpc/1.0.0"));
    headers.push(("te", "trailers"));
    headers.push(("grpc-encoding", "identity"));
    headers.push(("grpc-accept-encoding", "identity"));
    headers
}

/// What the caller adds to one request: headers, a deadline, and whether the
/// connection is to be closed when the call is given up.
pub struct RequestContext {
    headers: Vec<(String, String)>,
    timeout: Option<core::time::Duration>,
    disconnect_on_drop: bool,
}

impl RequestContext {
    /// The headers added so far, as pairs of name and value, in the order in
    /// which they were added.
    pub closed spec fn spec_headers(&self) -> Seq<(Seq<char>, Seq<char>)> {
        self.headers@.map_values(|h: (String, String)| (h.0@, h.1@))
    }

    /// The deadline set, if any.
    pub closed spec fn spec_timeout(&self) -> Option<core::time::Duration> {
        self.timeout
    }

    /// Whether the connection is to be closed when the call is given up.
    pub closed spec fn spec_disconnect_on_drop(&self) -> bool {
        self.disconnect_on_drop
    }

    /// A context that adds nothing.
    pub fn new() -> (ctx: RequestContext)
        ensures
            ctx.spec_headers() == Seq::<(Seq<char>, Seq<char>)>::empty(),
            ctx.spec_timeout().is_none(),
            !ctx.spec_disconnect_on_drop(),
    {
        let ctx = RequestContext { headers: Vec::new(), timeout: None, disconnect_on_drop: false };
        assert(ctx.spec_headers() =~= Seq::empty());
        ctx
    }

    /// The deadline set, if any.
    pub fn get_timeout(&self) -> (timeout: Option<core::time::Duration>)
        ensures
            timeout == self.spec_timeout(),
    {
        self.timeout
    }

    /// Sets the longest time the request may take, and adds the
    /// `grpc-timeout` header that says so, in the most precise unit that
    /// fits.
    ///
    /// The deadline is at most 99,999,999 hours away: nothing further off
    /// can be said in the header.
    pub fn timeout(&mut self, timeout: core::time::Duration)
        requires
            std_duration_secs(timeout) / 3600 <= 99_999_999,
        ensures
            final(self).spec_timeout() == Some(timeout),
            final(self).spec_disconnect_on_drop() == old(self).spec_disconnect_on_drop(),
            grpc_timeout_text(std_duration_secs(timeout), std_duration_subsec_nanos(timeout))
                matches Some(text) && final(self).spec_headers() == old(self).spec_headers().push(
                ("grpc-timeout"@, text),
            ),
    {
        self.timeout = Some(timeout);
        let value = duration_to_grpc_timeout(timeout);
        self.header("grpc-timeout", value.as_str());
    }

    /// Sets the deadline as `timeout` does and says so, or changes nothing
    /// and says so where the deadline is more than 99,999,999 hours away.
    pub fn try_timeout(&mut self, timeout: core::time::Duration) -> (set: bool)
        ensures
            set == (std_duration_secs(timeout) / 3600 <= 99_999_999),
            !set ==> *final(self) == *old(self),
            set ==> final(self).spec_timeout() == Some(timeout),
            set ==> final(self).spec_disconnect_on_drop() == old(self).spec_disconnect_on_drop(),
            set ==> (grpc_timeout_text(
                std_duration_secs(timeout),
                std_duration_subsec_nanos(timeout),
            ) matches Some(text) && final(self).spec_headers() == old(self).spec_headers().push(
                ("grpc-timeout"@, text),
            )),
    {
        if duration_as_secs(&timeout) / 3600 <= 99_999_999 {
            self.timeout(timeout);
            true
        } else {
            false
        }
    }

    /// Has the connection closed when the call is given up.
    pub fn disconnect_on_drop(&mut self)
        ensures
            final(self).spec_disconnect_on_drop(),
            final(self).spec_headers() == old(self).spec_headers(),
            final(self).spec_timeout() == old(self).spec_timeout(),
    {
        self.disconnect_on_drop = true;
    }

    /// Adds a header behind those already there.
    pub fn header(&mut self, key: &str, value: &str)
        ensures
            final(self).spec_headers() == old(self).spec_headers().push((key@, value@)),
            final(self).spec_timeout() == old(self).spec_timeout(),
            final(self).spec_disconnect_on_drop() == old(self).spec_disconnect_on_drop(),
    {
        let key = String::from_str(key);
        let value = String::from_str(value);
        self.headers.push((key, value));
        assert(self.spec_headers() =~= old(self).spec_headers().push((key@, value@)));
    }

    /// The number of headers added so far.
    pub fn headers_len(&self) -> (n: usize)
        ensures
            n == self.spec_headers().len(),
    {
        self.headers.len()
    }

    /// The name and the value of header number `i`.
    pub fn header_at(&self, i: usize) -> (h: (&str, &str))
        requires
            i < self.spec_headers().len(),
        ensures
            (h.0@, h.1@) == self.spec_headers()[i as int],
    {
        let h = &self.headers[i];
        (h.0.as_str(), h.1.as_str())
    }

    /// Whether the connection is to be closed when the call is given up.
    pub fn get_disconnect_on_drop(&self) -> (b: bool)
        ensures
            b == self.spec_disconnect_on_drop(),
    {
        self.disconnect_on_drop
    }
}

/// The response to a call: the message, the headers and the trailers that
/// came with it, and the sizes of the request and of what was left of the
/// response behind the message.
pub struct Response<T: MethodDef, H> {
    pub output: T::Output,
    pub headers: H,
    pub trailers: H,
    pub req_size: usize,
    pub res_size: usize,
}

impl<T: MethodDef, H> Response<T, H> {
    pub fn headers(&self) -> (h: &H)
        ensures
            *h == self.headers,
    {
        &self.headers
    }

    pub fn trailers(&self) -> (h: &H)
        ensures
            *h == self.trailers,
    {
        &self.trailers
    }

    pub fn into_inner(self) -> (output: T::Output)
        ensures
            output == self.output,
    {
        self.output
    }

    pub fn into_parts(self) -> (parts: (T::Output, H, H))
        ensures
            parts == (self.output, self.headers, self.trailers),
    {
        (self.output, self.headers, self.trailers)
    }
}

} // verus!

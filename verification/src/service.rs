//! What a service and its methods are known by.

use crate::buf::{bytes_mut_seq, bytes_seq, BUF_LIMIT};
use crate::encoding::DecodeError;
use crate::types::Message;
use ntex_bytes::{Bytes, BytesMut};
use vstd::prelude::*;

verus! {

/// A service: its full name and the methods it has.
pub trait ServiceDef {
    /// The full name of the service: the package, a dot, and the name.
    const NAME: &'static str;

    /// The methods of the service.
    type Methods: MethodsDef;

    /// The method with the given name, if the service has one.
    fn method_by_name(name: &str) -> (method: Option<Self::Methods>)
        ensures
            method == <Self::Methods as MethodsDef>::spec_by_name(name@),
    {
        <Self::Methods as MethodsDef>::by_name(name)
    }
}

/// The methods of a service, looked up by name.
pub trait MethodsDef: Sized {
    /// The method with exactly the given name, if there is one.
    spec fn spec_by_name(name: Seq<char>) -> Option<Self>;

    /// The method with exactly the given name, if there is one.
    fn by_name(name: &str) -> (method: Option<Self>)
        ensures
            method == Self::spec_by_name(name@),
    ;
}

/// A method of a service: its name, its path, and the messages it takes and
/// gives.
pub trait MethodDef {
    /// The name of the method.
    const NAME: &'static str;

    /// The path of the method: a slash, the full name of the service, a
    /// slash, and the name of the method.
    const PATH: &'static str;

    /// The message the method takes.
    type Input: Message;

    /// The message the method gives.
    type Output: Message;

    /// Decodes the message the method takes from the whole of the buffer.
    fn decode(&self, buf: &mut Bytes) -> (r: Result<Self::Input, DecodeError>)
        ensures
            match <Self::Input as Message>::parse(bytes_seq(old(buf))) {
                Ok(m) => r matches Ok(v) && v.model() == m && bytes_seq(final(buf)).len() == 0,
                Err(f) => r matches Err(e) && e@ == f,
            },
            r is Err ==> <Self::Input as Message>::taken(bytes_seq(old(buf))) <= bytes_seq(
                old(buf),
            ).len() && bytes_seq(final(buf)) == bytes_seq(old(buf)).skip(
                <Self::Input as Message>::taken(bytes_seq(old(buf))) as int,
            ),
    {
        Message::read(buf)
    }

    /// Appends the encoding of the message the method gives to the buffer.
    fn encode(&self, val: Self::Output, buf: &mut BytesMut)
        requires
            bytes_mut_seq(old(buf)).len() + <Self::Output as Message>::wire(val.model()).len()
                <= BUF_LIMIT,
        ensures
            bytes_mut_seq(final(buf)) == bytes_mut_seq(old(buf)) + <Self::Output as Message>::wire(
                val.model(),
            ),
    {
        val.write(buf);
    }
}

/// What a client of a service lets its user do with the transport it calls
/// through.
pub trait ClientInformation<T>: Sized {
    /// A client that calls through `transport`.
    fn create(transport: T) -> Self;

    /// The transport that the client calls through.
    fn transport(&self) -> &T;

    /// The transport that the client calls through, for changes.
    fn transport_mut(&mut self) -> &mut T;

    /// Gives up the client for its transport.
    fn into_inner(self) -> T;
}

} // verus!

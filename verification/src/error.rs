//! What can go wrong when sending or receiving.

use vstd::prelude::*;

verus! {

/// An error that may be emitted when attempting to send a value into a channel on a sender when
/// all receivers are dropped.
#[derive(Copy, Clone, PartialEq, Eq)]
pub struct SendError<T>(pub T);

impl<T> SendError<T> {
    /// Consume the error, yielding the message that failed to send.
    pub fn into_inner(self) -> (msg: T)
        ensures
            msg == self.0,
    {
        self.0
    }

    /// The text shown to a user.
    pub fn to_string(&self) -> (text: String)
        ensures
            text@ == "sending on a closed channel"@,
    {
        "sending on a closed channel".to_owned()
    }

    /// The text shown to a programmer; it leaves the message out.
    pub fn debug_string(&self) -> (text: String)
        ensures
            text@ == "\"SendError(..)\""@,
    {
        "\"SendError(..)\"".to_owned()
    }
}

/// An error that may be emitted when attempting to send a value into a channel on a sender when
/// the channel is full or all receivers are dropped.
#[derive(Copy, Clone, PartialEq, Eq)]
pub enum TrySendError<T> {
    /// The channel the message is sent on has a finite capacity and was full when the send was
    /// attempted.
    Full(T),
    /// All channel receivers were dropped and so the message has nobody to receive it.
    Disconnected(T),
}

impl<T> TrySendError<T> {
    /// The message that failed to send.
    pub open spec fn msg(self) -> T {
        match self {
            TrySendError::Full(msg) => msg,
            TrySendError::Disconnected(msg) => msg,
        }
    }

    /// Consume the error, yielding the message that failed to send.
    pub fn into_inner(self) -> (msg: T)
        ensures
            msg == self.msg(),
    {
        match self {
            Self::Full(msg) | Self::Disconnected(msg) => msg,
        }
    }

    /// The text shown to a user.
    pub fn to_string(&self) -> (text: String)
        ensures
            text@ == (match self {
                TrySendError::Full(_) => "sending on a full channel"@,
                TrySendError::Disconnected(_) => "sending on a closed channel"@,
            }),
    {
        match self {
            TrySendError::Full(..) => "sending on a full channel".to_owned(),
            TrySendError::Disconnected(..) => "sending on a closed channel".to_owned(),
        }
    }

    /// The text shown to a programmer; it leaves the message out.
    pub fn debug_string(&self) -> (text: String)
        ensures
            text@ == (match self {
                TrySendError::Full(_) => "\"Full(..)\""@,
                TrySendError::Disconnected(_) => "\"Disconnected(..)\""@,
            }),
    {
        match self {
            TrySendError::Full(..) => "\"Full(..)\"".to_owned(),
            TrySendError::Disconnected(..) => "\"Disconnected(..)\"".to_owned(),
        }
    }
}

impl<T> From<SendError<T>> for TrySendError<T> {
    fn from(err: SendError<T>) -> (res: Self) {
        match err {
            SendError(item) => Self::Disconnected(item),
        }
    }
}

impl<T> vstd::std_specs::convert::FromSpecImpl<SendError<T>> for TrySendError<T> {
    open spec fn obeys_from_spec() -> bool {
        true
    }

    open spec fn from_spec(err: SendError<T>) -> Self {
        TrySendError::Disconnected(err.0)
    }
}

/// An error that may be emitted when sending a value into a channel on a sender with a timeout
/// when the send operation times out or all receivers are dropped.
#[derive(Copy, Clone, PartialEq, Eq)]
pub enum SendTimeoutError<T> {
    /// A timeout occurred when attempting to send the message.
    Timeout(T),
    /// All channel receivers were dropped and so the message has nobody to receive it.
    Disconnected(T),
}

impl<T> SendTimeoutError<T> {
    /// The message that failed to send.
    pub open spec fn msg(self) -> T {
        match self {
            SendTimeoutError::Timeout(msg) => msg,
            SendTimeoutError::Disconnected(msg) => msg,
        }
    }

    /// Consume the error, yielding the message that failed to send.
    pub fn into_inner(self) -> (msg: T)
        ensures
            msg == self.msg(),
    {
        match self {
            Self::Timeout(msg) | Self::Disconnected(msg) => msg,
        }
    }

    /// The text shown to a user.
    pub fn to_string(&self) -> (text: String)
        ensures
            text@ == (match self {
                SendTimeoutError::Timeout(_) => "timed out sending on a full channel"@,
                SendTimeoutError::Disconnected(_) => "sending on a closed channel"@,
            }),
    {
        match self {
            SendTimeoutError::Timeout(..) => "timed out sending on a full channel".to_owned(),
            SendTimeoutError::Disconnected(..) => "sending on a closed channel".to_owned(),
        }
    }

    /// The text shown to a programmer; it leaves the message out.
    pub fn debug_string(&self) -> (text: String)
        ensures
            text@ == "\"SendTimeoutError(..)\""@,
    {
        "\"SendTimeoutError(..)\"".to_owned()
    }
}

impl<T> From<SendError<T>> for SendTimeoutError<T> {
    fn from(err: SendError<T>) -> (res: Self) {
        match err {
            SendError(item) => Self::Disconnected(item),
        }
    }
}

impl<T> vstd::std_specs::convert::FromSpecImpl<SendError<T>> for SendTimeoutError<T> {
    open spec fn obeys_from_spec() -> bool {
        true
    }

    open spec fn from_spec(err: SendError<T>) -> Self {
        SendTimeoutError::Disconnected(err.0)
    }
}

/// An error that may be emitted when attempting to wait for a value on a receiver when all senders
/// are dropped and there are no more messages in the channel.
#[derive(Copy, Clone, Debug, PartialEq, Eq, Structural)]
pub enum RecvError {
    /// All senders were dropped and no messages are waiting in the channel, so no further messages
    /// can be received.
    Disconnected,
}

impl RecvError {
    /// The text shown to a user.
    pub fn to_string(&self) -> (text: String)
        ensures
            text@ == "receiving on a closed channel"@,
    {
        match self {
            RecvError::Disconnected => "receiving on a closed channel".to_owned(),
        }
    }
}

/// An error that may be emitted when attempting to fetch a value on a receiver when there are no
/// messages in the channel. If there are no messages in the channel and all senders are dropped,
/// then `TryRecvError::Disconnected` will be returned.
#[derive(Copy, Clone, Debug, PartialEq, Eq, Structural)]
pub enum TryRecvError {
    /// The channel was empty when the receive was attempted.
    Empty,
    /// All senders were dropped and no messages are waiting in the channel, so no further messages
    /// can be received.
    Disconnected,
}

impl TryRecvError {
    /// The text shown to a user.
    pub fn to_string(&self) -> (text: String)
        ensures
            text@ == (match self {
                TryRecvError::Empty => "receiving on an empty channel"@,
                TryRecvError::Disconnected => "channel is empty and closed"@,
            }),
    {
        match self {
            TryRecvError::Empty => "receiving on an empty channel".to_owned(),
            TryRecvError::Disconnected => "channel is empty and closed".to_owned(),
        }
    }
}

impl From<RecvError> for TryRecvError {
    fn from(err: RecvError) -> (res: Self) {
        match err {
            RecvError::Disconnected => Self::Disconnected,
        }
    }
}

impl vstd::std_specs::convert::FromSpecImpl<RecvError> for TryRecvError {
    open spec fn obeys_from_spec() -> bool {
        true
    }

    open spec fn from_spec(err: RecvError) -> Self {
        TryRecvError::Disconnected
    }
}

/// An error that may be emitted when attempting to wait for a value on a receiver with a timeout
/// when the receive operation times out or all senders are dropped and there are no values left
/// in the channel.
#[derive(Copy, Clone, Debug, PartialEq, Eq, Structural)]
pub enum RecvTimeoutError {
    /// A timeout occurred when attempting to receive a message.
    Timeout,
    /// All senders were dropped and no messages are waiting in the channel, so no further messages
    /// can be received.
    Disconnected,
}

impl RecvTimeoutError {
    /// The text shown to a user.
    pub fn to_string(&self) -> (text: String)
        ensures
            text@ == (match self {
                RecvTimeoutError::Timeout => "timed out waiting on a channel"@,
                RecvTimeoutError::Disconnected => "channel is empty and closed"@,
            }),
    {
        match self {
            RecvTimeoutError::Timeout => "timed out waiting on a channel".to_owned(),
            RecvTimeoutError::Disconnected => "channel is empty and closed".to_owned(),
        }
    }
}

impl From<RecvError> for RecvTimeoutError {
    fn from(err: RecvError) -> (res: Self) {
        match err {
            RecvError::Disconnected => Self::Disconnected,
        }
    }
}

impl vstd::std_specs::convert::FromSpecImpl<RecvError> for RecvTimeoutError {
    open spec fn obeys_from_spec() -> bool {
        true
    }

    open spec fn from_spec(err: RecvError) -> Self {
        RecvTimeoutError::Disconnected
    }
}

/// Every way in which a send can fail, with the message that it was to carry.
#[derive(Copy, Clone, PartialEq, Eq)]
pub enum TrySendTimeoutError<T> {
    /// The channel was full and the send was not to wait.
    Full(T),
    /// The channel is disconnected.
    Disconnected(T),
    /// The deadline passed before there was room.
    Timeout(T),
}

impl<T> TrySendTimeoutError<T> {
    /// The message that failed to send.
    pub open spec fn msg(self) -> T {
        match self {
            TrySendTimeoutError::Full(msg) => msg,
            TrySendTimeoutError::Disconnected(msg) => msg,
            TrySendTimeoutError::Timeout(msg) => msg,
        }
    }
}

/// Every way in which a receive can fail.
#[derive(Copy, Clone, Debug, PartialEq, Eq, Structural)]
pub enum TryRecvTimeoutError {
    /// The channel was empty and the receive was not to wait.
    Empty,
    /// The deadline passed before there was a message.
    Timeout,
    /// The channel is disconnected and empty.
    Disconnected,
}

} // verus!

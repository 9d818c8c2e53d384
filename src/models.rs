use vstd::prelude::*;

verus! {

/// A chat session between two users.
///
/// `id` is the chat's id, where one was given; `participantIds` holds the ids
/// of the two participants.
#[allow(non_snake_case)]
pub struct Chat {
    pub id: Option<u32>,
    pub participantIds: [u32; 2],
}

/// A message sent in a chat session.
///
/// `timestamp` is when it was sent, as an epoch timestamp;
/// `sourceUserId` and `destinationUserId` are the ids of its sender and its
/// recipient.
#[allow(non_snake_case)]
pub struct Message<'a> {
    pub id: Option<&'a str>,
    pub timestamp: u32,
    pub message: &'a str,
    pub sourceUserId: u32,
    pub destinationUserId: u32,
}

} // verus!

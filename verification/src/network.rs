//! How a message is laid out in a datagram: its type's byte, then its bytes.
use crate::message::{MessageType, message_type_named, message_type_number};
use vstd::prelude::*;
use vstd::slice::slice_subrange;

verus! {

/// The datagram that carries `content` as a message of the given type.
pub fn frame_message(message_type: MessageType, content: &[u8]) -> (res: Vec<u8>)
    ensures
        res@ == seq![message_type_number(message_type)] + content@,
{
    let mut message: Vec<u8> = Vec::new();
    message.push(message_type.to_byte());
    let mut i: usize = 0;
    while i < content.len()
        invariant
            i <= content@.len(),
            message@ == seq![message_type_number(message_type)] + content@.take(i as int),
        decreases content@.len() - i,
    {
        message.push(content[i]);
        i = i + 1;
        assert(content@.take(i as int) =~= content@.take(i - 1).push(content@[i - 1]));
    }
    assert(content@.take(content@.len() as int) =~= content@);
    message
}

/// The type and the content of a received datagram; `None` where it is
/// empty or its first byte names no type.
pub fn split_frame(data: &[u8]) -> (res: Option<(MessageType, &[u8])>)
    ensures
        match res {
            Some((t, content)) => data@.len() > 0 && message_type_named(data@[0]) == Some(t)
                && content@ == data@.skip(1),
            None => data@.len() == 0 || message_type_named(data@[0]) is None,
        },
{
    if data.len() == 0 {
        return None;
    }
    match MessageType::from_byte(data[0]) {
        None => None,
        Some(t) => Some((t, slice_subrange(data, 1, data.len()))),
    }
}

/// A datagram is read back as the type and content it was framed with,
/// whatever the type but `Unknown`.
pub proof fn law_frame_roundtrip(message_type: MessageType, content: Seq<u8>)
    requires
        message_type != MessageType::Unknown,
    ensures
        ({
            let data = seq![message_type_number(message_type)] + content;
            &&& data.len() > 0
            &&& message_type_named(data[0]) == Some(message_type)
            &&& data.skip(1) == content
        }),
{
    let data = seq![message_type_number(message_type)] + content;
    assert(data.skip(1) =~= content);
}

} // verus!

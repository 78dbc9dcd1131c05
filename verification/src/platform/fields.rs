//! Byte strings that are ended by zeros, such as arguments and environments.
use crate::callbacks::byte_texts;
use crate::osc::text_view;
use crate::text::{from_utf8_lossy, lossy_text, same_bytes, split, split_bytes};
use vstd::prelude::*;
use vstd::utf8::encode_utf8;

verus! {

/// The parts that are not empty.
pub open spec fn filled_parts(parts: Seq<Seq<u8>>) -> Seq<Seq<u8>>
    decreases parts.len(),
{
    if parts.len() == 0 {
        Seq::empty()
    } else if parts.last().len() > 0 {
        filled_parts(parts.drop_last()).push(parts.last())
    } else {
        filled_parts(parts.drop_last())
    }
}

/// What stands before the agent that an environment declares.
pub open spec fn agent_key() -> Seq<u8> {
    encode_utf8("ZOR_AGENT="@)
}

/// The first of the parts that declares an agent, as the agent.
pub open spec fn declared_agent(parts: Seq<Seq<u8>>) -> Option<Seq<char>>
    decreases parts.len(),
{
    if parts.len() == 0 {
        None
    } else if declared_agent(parts.drop_last()) is Some {
        declared_agent(parts.drop_last())
    } else if agent_key().is_prefix_of(parts.last()) {
        Some(lossy_text(parts.last().skip(agent_key().len() as int)))
    } else {
        None
    }
}

/// The non-empty byte strings between zeros.
pub fn zero_parts(bytes: &[u8]) -> (parts: Vec<&[u8]>)
    ensures
        byte_texts(parts@) == filled_parts(split(bytes@, 0)),
{
    let all_parts = split_bytes(bytes, 0);
    let ghost all = split(bytes@, 0);
    let mut parts: Vec<&[u8]> = Vec::new();
    for index in 0..all_parts.len()
        invariant
            all_parts@.len() == all.len(),
            forall|part: int|
                0 <= part < all_parts@.len() ==> (#[trigger] all_parts@[part])@ == all[part],
            byte_texts(parts@) == filled_parts(all.take(index as int)),
    {
        assert(all.take(index + 1).drop_last() =~= all.take(index as int));
        let part = all_parts[index];
        assert(part@ == all[index as int]);
        if part.len() > 0 {
            let ghost before = parts@;
            parts.push(part);
            assert(byte_texts(parts@) =~= byte_texts(
                before,
            ).push(part@));
        }
    }
    assert(all.take(all_parts@.len() as int) =~= all);
    parts
}

proof fn lemma_declared(parts: Seq<Seq<u8>>, count: int)
    requires
        0 <= count <= parts.len(),
        declared_agent(parts.take(count)) is Some,
    ensures
        declared_agent(parts) == declared_agent(parts.take(count)),
    decreases parts.len() - count,
{
    if count == parts.len() {
        assert(parts.take(count) =~= parts);
    } else {
        assert(parts.take(count + 1).drop_last() =~= parts.take(count));
        lemma_declared(parts, count + 1);
    }
}

/// The agent that the first fitting part from `start` on declares.
pub fn find_declared(parts: &Vec<&[u8]>, start: usize) -> (agent: Option<String>)
    requires
        start <= parts@.len(),
    ensures
        text_view(agent) == declared_agent(
            byte_texts(parts@).skip(start as int),
        ),
{
    let key = "ZOR_AGENT=".as_bytes();
    let ghost views = byte_texts(parts@).skip(start as int);
    for index in start..parts.len()
        invariant
            start <= parts@.len(),
            key@ == agent_key(),
            views == byte_texts(parts@).skip(start as int),
            declared_agent(views.take(index - start)) is None,
    {
        let ghost longer = views.take(index - start + 1);
        assert(longer.drop_last() =~= views.take(index - start));
        let part = parts[index];
        assert(longer.last() == part@);
        if part.len() >= key.len() && same_bytes(&part[0..key.len()], key) {
            assert(agent_key() =~= part@.subrange(0, agent_key().len() as int));
            let value = &part[key.len()..part.len()];
            assert(value@ =~= part@.skip(agent_key().len() as int));
            proof {
                lemma_declared(views, index - start + 1);
            }
            return Some(from_utf8_lossy(value));
        }
        proof {
            if agent_key().is_prefix_of(part@) {
                assert(part@.subrange(0, key@.len() as int) =~= agent_key());
            }
        }
    }
    assert(views.take(parts@.len() - start) =~= views);
    None
}

} // verus!

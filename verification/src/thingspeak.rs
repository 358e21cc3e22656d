//! Where the readings are published on the ThingSpeak MQTT broker.
use vstd::prelude::*;
use vstd::string::StringExecFns;

verus! {

/// The topic to which the readings of channel `channel_id` are published.
pub fn publish_topic(channel_id: &str) -> (topic: String)
    ensures
        topic@ == "channels/"@ + channel_id@ + "/publish"@,
{
    let mut topic = String::from_str("channels/");
    topic.append(channel_id);
    topic.append("/publish");
    topic
}

} // verus!

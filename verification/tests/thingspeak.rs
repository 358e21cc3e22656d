use iaq_monitor::thingspeak::publish_topic;

#[test]
fn topic_of_a_channel() {
    assert_eq!(publish_topic("2591234"), "channels/2591234/publish");
    assert_eq!(publish_topic(""), "channels//publish");
}

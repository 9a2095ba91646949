use argon_write::read::{respond, screen, Answer};

#[test]
fn a_client_that_is_not_subscribed_is_turned_away() {
    let answer: Option<Answer<u8>> = screen(false);
    let answer = answer.unwrap();
    assert_eq!(answer.status(), 401);
    assert!(matches!(answer, Answer::Unauthorized(text) if text == "Not subscribed"));
}

#[test]
fn a_client_that_is_subscribed_may_wait() {
    let answer: Option<Answer<u8>> = screen(true);
    assert!(answer.is_none());
}

#[test]
fn a_message_is_handed_on() {
    let answer = respond(Ok(5u8));
    assert_eq!(answer.status(), 200);
    assert!(matches!(answer, Answer::Message(5)));
}

#[test]
fn a_queue_that_fails_says_why() {
    let answer: Answer<u8> = respond(Err("timed out".to_string()));
    assert_eq!(answer.status(), 500);
    assert!(matches!(answer, Answer::Failed(reason) if reason == "timed out"));
}

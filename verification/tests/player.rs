use gemini_assistant::player::Player;

#[test]
fn mono_audio_is_spread_over_all_channels() {
    let mut player = Player::new(16_000, 2);
    player.push_pcm16(&[1, -2, 3], 16_000);
    assert_eq!(player.queued_frames(), 3);
    assert_eq!(player.fill(8), vec![1, 1, -2, -2, 3, 3, 0, 0]);
    assert_eq!(player.queued_frames(), 0);
}

#[test]
fn audio_is_brought_to_the_rate_of_the_device() {
    let mut player = Player::new(48_000, 1);
    player.push_pcm16(&[0, 300], 16_000);
    assert_eq!(player.fill(6), vec![0, 100, 200, 300, 300, 300]);
}

#[test]
fn audio_is_played_in_the_order_it_was_queued() {
    let mut player = Player::new(24_000, 1);
    player.push_pcm16(&[1, 2], 24_000);
    player.push_pcm16(&[3], 24_000);
    assert_eq!(player.next_sample(), 1);
    assert_eq!(player.fill(2), vec![2, 3]);
    assert_eq!(player.next_sample(), 0);
}

#[test]
fn barge_in_drops_what_is_queued() {
    let mut player = Player::new(16_000, 2);
    player.push_pcm16(&[5; 100], 16_000);
    player.clear();
    assert_eq!(player.queued_frames(), 0);
    assert_eq!(player.fill(2), vec![0, 0]);
}

#[test]
fn a_device_without_channels_counts_as_mono() {
    let mut player = Player::new(16_000, 0);
    player.push_pcm16(&[7, 8], 16_000);
    assert_eq!(player.queued_frames(), 2);
    assert_eq!(player.fill(2), vec![7, 8]);
}

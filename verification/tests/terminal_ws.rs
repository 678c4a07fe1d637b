use cki::base64::encode;
use cki::terminal::websocket::{text_command, ClientControlMessage, PtyCommand};
use cki::terminal::ws::{
    apply_mask, compute_accept, encode_frame_header, frame_action, parse_frame_head, payload_len,
    sha1, FrameAction, WsMessage,
};

#[test]
fn test_ws_accept_hash() {
    let key = "dGhlIHNhbXBsZSBub25jZQ==";
    let accept = compute_accept(key);
    assert_eq!(accept, "s3pPLMBiTxaQ9kYGzzhZRbK+xOo=");
}

fn hex(d: &[u8]) -> String {
    d.iter().map(|b| format!("{b:02x}")).collect()
}

#[test]
fn sha1_known_vectors() {
    assert_eq!(hex(&sha1(b"")), "da39a3ee5e6b4b0d3255bfef95601890afd80709");
    assert_eq!(hex(&sha1(b"abc")), "a9993e364706816aba3e25717850c26c9cd0d89d");
    assert_eq!(
        hex(&sha1(b"abcdbcdecdefdefgefghfghighijhijkijkljklmklmnlmnomnopnopq")),
        "84983e441c3bd26ebaae4aa1f95129e5e54670f1"
    );
    let million = vec![b'a'; 1_000_000];
    assert_eq!(hex(&sha1(&million)), "34aa973cd4c4daa4f61eeb2bdbad27316534016f");
}

#[test]
fn base64_padding() {
    assert_eq!(encode(b""), "");
    assert_eq!(encode(b"f"), "Zg==");
    assert_eq!(encode(b"fo"), "Zm8=");
    assert_eq!(encode(b"foo"), "Zm9v");
    assert_eq!(encode(b"foobar"), "Zm9vYmFy");
    assert_eq!(encode(&[0xfb, 0xff]), "+/8=");
}

#[test]
fn accept_trims_the_key() {
    assert_eq!(compute_accept("  dGhlIHNhbXBsZSBub25jZQ==\r\n"), "s3pPLMBiTxaQ9kYGzzhZRbK+xOo=");
}

#[test]
fn frame_headers_by_length() {
    assert_eq!(encode_frame_header(0x1, 5), vec![0x81, 5]);
    assert_eq!(encode_frame_header(0x12, 0), vec![0x82, 0]);
    assert_eq!(encode_frame_header(0x2, 126), vec![0x82, 126, 0, 126]);
    assert_eq!(encode_frame_header(0x2, 65535), vec![0x82, 126, 0xff, 0xff]);
    assert_eq!(encode_frame_header(0x8, 65536), vec![0x88, 127, 0, 0, 0, 0, 0, 1, 0, 0]);
}

#[test]
fn frame_heads_and_lengths() {
    let h = parse_frame_head(0x81, 0x85);
    assert_eq!((h.opcode, h.masked, h.len_code), (1, true, 5));
    let h = parse_frame_head(0x8a, 0x7e);
    assert_eq!((h.opcode, h.masked, h.len_code), (10, false, 126));
    assert_eq!(payload_len(5, &[]), 5);
    assert_eq!(payload_len(126, &[1, 2]), 258);
    assert_eq!(payload_len(127, &[0, 0, 0, 0, 0, 1, 0, 0]), 65536);
}

#[test]
fn mask_round_trips() {
    let mask = [1, 2, 3, 4];
    let mut p = b"Hello".to_vec();
    apply_mask(&mut p, mask);
    assert_eq!(p, vec![b'H' ^ 1, b'e' ^ 2, b'l' ^ 3, b'l' ^ 4, b'o' ^ 1]);
    apply_mask(&mut p, mask);
    assert_eq!(p, b"Hello".to_vec());
}

#[test]
fn frame_actions_by_opcode() {
    assert_eq!(frame_action(1, b"hi".to_vec()), FrameAction::Deliver(WsMessage::Text("hi".into())));
    assert_eq!(frame_action(1, vec![0xff]), FrameAction::Deliver(WsMessage::Text("\u{fffd}".into())));
    assert_eq!(frame_action(2, vec![7]), FrameAction::Deliver(WsMessage::Binary(vec![7])));
    assert_eq!(frame_action(8, vec![]), FrameAction::Deliver(WsMessage::Close));
    assert_eq!(frame_action(9, vec![3]), FrameAction::ReplyPong(vec![3]));
    assert_eq!(frame_action(10, vec![3]), FrameAction::Ignore);
    assert_eq!(frame_action(0, vec![]), FrameAction::Ignore);
}

#[test]
fn text_messages_become_commands() {
    let input = Some(ClientControlMessage::Input { data: "ls\n".into() });
    assert_eq!(text_command(input, "ignored"), PtyCommand::Write(b"ls\n".to_vec()));
    let resize = Some(ClientControlMessage::Resize { cols: 80, rows: 24 });
    assert_eq!(text_command(resize, "x"), PtyCommand::Resize { cols: 80, rows: 24 });
    assert_eq!(text_command(None, "raw"), PtyCommand::Write(b"raw".to_vec()));
}

use bc_rust::server::{request_kind, Action, Fault, OutputUpdate, Page, RequestKind, Server};

fn respond(page: Page, output: OutputUpdate) -> Action {
    Action::Respond { page, output }
}

fn send(server: &mut Server, request: &str) -> Action {
    server.handle_request(request.as_bytes(), request)
}

#[test]
fn starts_with_genesis() {
    let s = Server::new();
    assert_eq!(s.next_id(), 1);
    assert_eq!(s.max_nonce(), 1_000_000);
    assert_eq!(s.leading_zeros(), 3);
    assert_eq!(s.chain().len(), 1);
    assert_eq!(s.chain().block(0).input_data(), "Null");
}

#[test]
fn index_and_other_requests() {
    let mut s = Server::new();
    assert_eq!(send(&mut s, "GET / HTTP/1.1\r\n\r\n"), respond(Page::Index, OutputUpdate::Untouched));
    assert_eq!(send(&mut s, "GET /favicon.ico HTTP/1.1\r\n"), respond(Page::Output, OutputUpdate::Untouched));
    assert_eq!(s.chain().len(), 1);
}

#[test]
fn settings_then_add_blocks() {
    let mut s = Server::new();
    assert_eq!(send(&mut s, "GET /setting_bc*2000__1 HTTP/1.1\r\n"), respond(Page::Index, OutputUpdate::Rewritten));
    assert_eq!(s.max_nonce(), 2000);
    assert_eq!(s.leading_zeros(), 1);
    assert_eq!(send(&mut s, "GET /setting_bc*3000__1 HTTP/1.1\r\n"), respond(Page::Output, OutputUpdate::Emptied));
    assert_eq!(s.max_nonce(), 3000);
    assert_eq!(send(&mut s, "GET /convert_bc?c=hello HTTP/1.1\r\n"), respond(Page::Output, OutputUpdate::Rewritten));
    assert_eq!(s.next_id(), 2);
    assert_eq!(s.chain().len(), 2);
    assert_eq!(s.chain().block(1).input_data(), "hello");
    assert!(s.chain().block(0).mined());
    assert!(s.chain().block(1).mined());
    assert_eq!(s.chain().block(1).prev_block_hash(), s.chain().block(0).hash());
}

#[test]
fn mine_request_changes_block() {
    let mut s = Server::new();
    send(&mut s, "GET /setting_bc*3000__1 HTTP/1.1\r\n");
    send(&mut s, "GET /convert_bc?c=one HTTP/1.1\r\n");
    send(&mut s, "GET /convert_bc?c=two HTTP/1.1\r\n");
    assert_eq!(send(&mut s, "GET /minebc*1__uno HTTP/1.1\r\n"), respond(Page::Output, OutputUpdate::Rewritten));
    let c = s.chain();
    assert_eq!(c.block(1).input_data(), "uno");
    for i in 0..3 {
        assert!(c.block(i).mined());
        assert!(c.block(i).encoded_hash().starts_with('0'));
    }
    assert_eq!(c.block(2).prev_block_hash(), c.block(1).hash());
    assert_eq!(c.block(1).prev_block_hash(), c.block(0).hash());
}

#[test]
fn faults() {
    let mut s = Server::new();
    assert_eq!(
        send(&mut s, "GET /minebc*9__x HTTP/1.1\r\n"),
        Action::Fail { output: OutputUpdate::Emptied, fault: Fault::NoSuchBlock }
    );
    assert_eq!(
        send(&mut s, "GET /minebc*__x HTTP/1.1\r\n"),
        Action::Fail { output: OutputUpdate::Emptied, fault: Fault::BadMineId }
    );
    assert_eq!(
        send(&mut s, "GET /convert_bc HTTP/1.1\r\n"),
        Action::Fail { output: OutputUpdate::Emptied, fault: Fault::BadRequestContent }
    );
    assert_eq!(
        send(&mut s, "GET /setting_bc*__1 HTTP/1.1\r\n"),
        Action::Fail { output: OutputUpdate::Emptied, fault: Fault::BadMaxNonce }
    );
    assert_eq!(
        send(&mut s, "GET /setting_bc*10__ HTTP/1.1\r\n"),
        Action::Fail { output: OutputUpdate::Emptied, fault: Fault::BadLeadingZeros }
    );
    assert_eq!(send(&mut s, "GET /setting_bc*10__70 HTTP/1.1\r\n"), respond(Page::Index, OutputUpdate::Rewritten));
    assert_eq!(
        send(&mut s, "GET /convert_bc?c=abc HTTP/1.1\r\n"),
        Action::Fail { output: OutputUpdate::Emptied, fault: Fault::MiningLimits }
    );
    assert_eq!(send(&mut s, "GET /setting_bc*0__70 HTTP/1.1\r\n"), respond(Page::Output, OutputUpdate::Emptied));
    assert_eq!(send(&mut s, "GET /convert_bc?c=abc HTTP/1.1\r\n"), respond(Page::Output, OutputUpdate::Rewritten));
    assert_eq!(s.chain().len(), 2);
    assert!(!s.chain().block(1).mined());
}

#[test]
fn changing_leading_zeros_restarts_chain() {
    let mut s = Server::new();
    send(&mut s, "GET /setting_bc*2000__1 HTTP/1.1\r\n");
    send(&mut s, "GET /convert_bc?c=x HTTP/1.1\r\n");
    assert_eq!(s.chain().len(), 2);
    send(&mut s, "GET /setting_bc*2000__2 HTTP/1.1\r\n");
    assert_eq!(s.chain().len(), 1);
    assert_eq!(s.next_id(), 1);
    assert_eq!(s.leading_zeros(), 2);
    assert!(!s.chain().block(0).mined());
}

#[test]
fn request_kinds() {
    assert_eq!(request_kind(b"GET / HTTP/1.1\r\nHost: x"), RequestKind::Index);
    assert_eq!(request_kind(b"GET /convert_bc?content=a"), RequestKind::AddBlock);
    assert_eq!(request_kind(b"GET /minebc?id=1"), RequestKind::Mine);
    assert_eq!(request_kind(b"GET /setting_bc?max_nonce=1"), RequestKind::Settings);
    assert_eq!(request_kind(b"GET / HTTP/1.0\r\n"), RequestKind::Other);
    assert_eq!(request_kind(b""), RequestKind::Other);
}

#[test]
fn requests_keep_mining_times_of_blocks_left_alone() {
    let mut s = Server::new();
    send(&mut s, "GET /setting_bc*3000__1 HTTP/1.1\r\n");
    send(&mut s, "GET /convert_bc?c=one HTTP/1.1\r\n");
    send(&mut s, "GET /convert_bc?c=two HTTP/1.1\r\n");
    let times: Vec<_> = (0..3).map(|i| s.chain().block(i).mining_time()).collect();
    send(&mut s, "GET /convert_bc?c=three HTTP/1.1\r\n");
    for i in 0..3 {
        assert_eq!(s.chain().block(i).mining_time(), times[i]);
    }
    send(&mut s, "GET /minebc*2__deux HTTP/1.1\r\n");
    assert_eq!(s.chain().block(0).mining_time(), times[0]);
    assert_eq!(s.chain().block(1).mining_time(), times[1]);
    send(&mut s, "GET /setting_bc*4000__1 HTTP/1.1\r\n");
    send(&mut s, "GET / HTTP/1.1\r\n\r\n");
    assert_eq!(s.chain().block(0).mining_time(), times[0]);
    assert_eq!(s.chain().block(1).mining_time(), times[1]);
}

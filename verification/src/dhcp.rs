//! The DHCP server of the setup access point: reading a client's request and building the
//! reply that hands out the single client address.

use vstd::prelude::*;

verus! {

broadcast use vstd::seq::group_seq_axioms;

/// Walks the options of a request from index `i`, noting whether a message-type option said
/// DISCOVER (`disc`) or REQUEST (`req`).  `None` means the walk reads past the buffer.
pub open spec fn scan_options(buf: Seq<u8>, n: int, i: int, disc: bool, req: bool) -> Option<(bool, bool)>
    decreases n - i,
{
    if i >= n {
        Some((disc, req))
    } else if i < 0 || i >= buf.len() {
        None
    } else if buf[i] == 255 {
        Some((disc, req))
    } else if buf[i] == 0 {
        scan_options(buf, n, i + 1, disc, req)
    } else if i + 1 >= buf.len() {
        None
    } else if buf[i] == 53 && buf[i + 1] == 1 {
        if i + 2 >= buf.len() {
            None
        } else {
            scan_options(
                buf,
                n,
                next_option(n, i, buf[i + 1]),
                disc || buf[i + 2] == 1,
                req || buf[i + 2] == 3,
            )
        }
    } else {
        scan_options(buf, n, next_option(n, i, buf[i + 1]), disc, req)
    }
}

/// Where the option after the one at `i` (of length `len`) starts; a start past the end of
/// the request is the end itself, where the walk stops either way.
pub open spec fn next_option(n: int, i: int, len: u8) -> int {
    if i + 2 + len > n {
        n
    } else {
        i + 2 + len
    }
}

/// A request of `n` bytes in `buf` is worth answering: at least 240 bytes, a BOOTREQUEST.
pub open spec fn is_boot_request(buf: Seq<u8>, n: int) -> bool {
    n >= 240 && buf[0] == 1
}

/// Reading the request stays within the buffer.
pub open spec fn request_in_bounds(buf: Seq<u8>, n: int) -> bool {
    is_boot_request(buf, n) ==> scan_options(buf, n, 240, false, false) is Some
}

/// The reply to send: `Some(true)` for an OFFER (a DISCOVER was seen), `Some(false)` for an
/// ACK (a REQUEST was seen), `None` when the packet is not answered.
pub open spec fn reply_kind(buf: Seq<u8>, n: int) -> Option<bool> {
    if !is_boot_request(buf, n) {
        None
    } else {
        match scan_options(buf, n, 240, false, false) {
            Some((d, r)) => if d {
                Some(true)
            } else if r {
                Some(false)
            } else {
                None
            },
            None => None,
        }
    }
}

fn scan_options_exec(buf: &[u8], n: usize) -> (r: Option<(bool, bool)>)
    requires
        n <= buf.len(),
        n >= 240,
    ensures
        r == scan_options(buf@, n as int, 240, false, false),
{
    let mut i: usize = 240;
    let mut disc = false;
    let mut req = false;
    while i < n
        invariant
            n <= buf.len(),
            scan_options(buf@, n as int, 240, false, false) == scan_options(
                buf@,
                n as int,
                i as int,
                disc,
                req,
            ),
        decreases n - i,
    {
        let opt = buf[i];
        if opt == 255 {
            return Some((disc, req));
        } else if opt == 0 {
            i = i + 1;
            continue;
        }
        if i + 1 >= buf.len() {
            return None;
        }
        let len = buf[i + 1] as usize;
        if opt == 53 && len == 1 {
            if i + 2 >= buf.len() {
                return None;
            }
            let msg_type = buf[i + 2];
            if msg_type == 1 {
                disc = true;
            } else if msg_type == 3 {
                req = true;
            }
        }
        if len + 2 > n - i {
            i = n;
        } else {
            i = i + 2 + len;
        }
    }
    Some((disc, req))
}

/// Whether reading the `n`-byte request in `buf` stays within the buffer.  The device aborts
/// on a request for which it does not.
pub fn request_in_bounds_exec(buf: &[u8], n: usize) -> (r: bool)
    requires
        n <= buf.len(),
    ensures
        r == request_in_bounds(buf@, n as int),
{
    if n < 240 || buf[0] != 1 {
        true
    } else {
        scan_options_exec(buf, n).is_some()
    }
}

/// Which reply the `n`-byte request in `buf` gets.
pub fn reply_kind_exec(buf: &[u8], n: usize) -> (r: Option<bool>)
    requires
        n <= buf.len(),
        request_in_bounds(buf@, n as int),
    ensures
        r == reply_kind(buf@, n as int),
{
    if n < 240 || buf[0] != 1 {
        return None;
    }
    match scan_options_exec(buf, n) {
        Some((d, r)) => if d {
            Some(true)
        } else if r {
            Some(false)
        } else {
            None
        },
        None => None,
    }
}

/// The address handed to the client.
pub open spec fn client_ip() -> Seq<u8> {
    seq![192u8, 168u8, 4u8, 2u8]
}

/// The reply packet: BOOTREPLY header with the request's transaction id and hardware
/// address, the client address, the magic cookie, then the options: message type (OFFER or
/// ACK), server id, lease time 3600 s, mask 255.255.255.0, router, DNS server, end.
pub open spec fn reply_packet(xid: Seq<u8>, chaddr: Seq<u8>, server: Seq<u8>, offer: bool) -> Seq<u8> {
    seq![2u8, 1u8, 6u8, 0u8] + xid + seq![0u8, 0u8, 0u8, 0u8, 0u8, 0u8, 0u8, 0u8] + client_ip()
        + server + seq![0u8, 0u8, 0u8, 0u8] + chaddr + Seq::new(192, |k: int| 0u8) + seq![
        99u8,
        130u8,
        83u8,
        99u8,
    ] + seq![53u8, 1u8, if offer { 2u8 } else { 5u8 }] + seq![54u8, 4u8] + server + seq![
        51u8,
        4u8,
        0u8,
        0u8,
        14u8,
        16u8,
    ] + seq![1u8, 4u8, 255u8, 255u8, 255u8, 0u8] + seq![3u8, 4u8] + server + seq![6u8, 4u8]
        + server + seq![255u8]
}

fn push_all(out: &mut Vec<u8>, b: &[u8])
    ensures
        final(out)@ == old(out)@ + b@,
{
    let mut i: usize = 0;
    while i < b.len()
        invariant
            i <= b.len(),
            out@ == old(out)@ + b@.take(i as int),
        decreases b.len() - i,
    {
        out.push(b[i]);
        assert(b@.take(i + 1) =~= b@.take(i as int).push(b@[i as int]));
        i = i + 1;
    }
    assert(b@.take(b.len() as int) =~= b@);
}

/// Builds the reply to the request in `buf` (its transaction id is at bytes 4..8 and its
/// hardware address at bytes 28..44).
pub fn build_reply(buf: &[u8], server_ip: [u8; 4], offer: bool) -> (r: Vec<u8>)
    requires
        buf.len() >= 44,
    ensures
        r@ == reply_packet(buf@.subrange(4, 8), buf@.subrange(28, 44), server_ip@, offer),
        r.len() == 274,
{
    let mut out: Vec<u8> = Vec::new();
    let head = [2u8, 1u8, 6u8, 0u8];
    push_all(&mut out, &head);
    push_all(&mut out, &buf[4..8]);
    let z8 = [0u8; 8];
    push_all(&mut out, &z8);
    let cip = [192u8, 168u8, 4u8, 2u8];
    push_all(&mut out, &cip);
    push_all(&mut out, &server_ip);
    let z4 = [0u8; 4];
    push_all(&mut out, &z4);
    push_all(&mut out, &buf[28..44]);
    let mut k: usize = 0;
    let ghost mid = out@;
    while k < 192
        invariant
            k <= 192,
            out@ == mid + Seq::new(k as nat, |j: int| 0u8),
        decreases 192 - k,
    {
        out.push(0u8);
        assert(Seq::new((k + 1) as nat, |j: int| 0u8) =~= Seq::new(k as nat, |j: int| 0u8).push(0u8));
        k = k + 1;
    }
    let cookie = [99u8, 130u8, 83u8, 99u8];
    push_all(&mut out, &cookie);
    let mt = [53u8, 1u8, if offer { 2u8 } else { 5u8 }];
    push_all(&mut out, &mt);
    let sid = [54u8, 4u8];
    push_all(&mut out, &sid);
    push_all(&mut out, &server_ip);
    let lease = [51u8, 4u8, 0u8, 0u8, 14u8, 16u8];
    push_all(&mut out, &lease);
    let mask = [1u8, 4u8, 255u8, 255u8, 255u8, 0u8];
    push_all(&mut out, &mask);
    let router = [3u8, 4u8];
    push_all(&mut out, &router);
    push_all(&mut out, &server_ip);
    let dns = [6u8, 4u8];
    push_all(&mut out, &dns);
    push_all(&mut out, &server_ip);
    out.push(255u8);
    assert(head@ =~= seq![2u8, 1u8, 6u8, 0u8]);
    assert(z8@ =~= seq![0u8, 0u8, 0u8, 0u8, 0u8, 0u8, 0u8, 0u8]);
    assert(cip@ =~= client_ip());
    assert(z4@ =~= seq![0u8, 0u8, 0u8, 0u8]);
    assert(cookie@ =~= seq![99u8, 130u8, 83u8, 99u8]);
    assert(mt@ =~= seq![53u8, 1u8, if offer { 2u8 } else { 5u8 }]);
    assert(sid@ =~= seq![54u8, 4u8]);
    assert(lease@ =~= seq![51u8, 4u8, 0u8, 0u8, 14u8, 16u8]);
    assert(mask@ =~= seq![1u8, 4u8, 255u8, 255u8, 255u8, 0u8]);
    assert(router@ =~= seq![3u8, 4u8]);
    assert(dns@ =~= seq![6u8, 4u8]);
    assert(out@ =~= reply_packet(buf@.subrange(4, 8), buf@.subrange(28, 44), server_ip@, offer));
    out
}

/// The answer to the `n`-byte request in `buf` from the server at `server_ip`: the reply
/// packet when the request is a DISCOVER or a REQUEST, `None` when it is not answered.
pub fn answer_request(buf: &[u8], n: usize, server_ip: [u8; 4]) -> (r: Option<Vec<u8>>)
    requires
        n <= buf.len(),
        request_in_bounds(buf@, n as int),
    ensures
        r is Some <==> reply_kind(buf@, n as int) is Some,
        r matches Some(p) ==> p@ == reply_packet(
            buf@.subrange(4, 8),
            buf@.subrange(28, 44),
            server_ip@,
            reply_kind(buf@, n as int)->0,
        ),
{
    match reply_kind_exec(buf, n) {
        Some(offer) => Some(build_reply(buf, server_ip, offer)),
        None => None,
    }
}

/// The reply carries the request's transaction id and hardware address at their places,
/// hands out 192.168.4.2, names the server, and answers a DISCOVER with an OFFER and a
/// REQUEST with an ACK.
pub proof fn lemma_reply_fields(xid: Seq<u8>, chaddr: Seq<u8>, server: Seq<u8>, offer: bool)
    requires
        xid.len() == 4,
        chaddr.len() == 16,
        server.len() == 4,
    ensures
        ({
            let p = reply_packet(xid, chaddr, server, offer);
            &&& p.len() == 274
            &&& p[0] == 2
            &&& p.subrange(4, 8) == xid
            &&& p.subrange(16, 20) == client_ip()
            &&& p.subrange(20, 24) == server
            &&& p.subrange(28, 44) == chaddr
            &&& p.subrange(236, 240) == seq![99u8, 130u8, 83u8, 99u8]
            &&& p[240] == 53 && p[242] == if offer { 2u8 } else { 5u8 }
            &&& p.last() == 255
        }),
{
    let p = reply_packet(xid, chaddr, server, offer);
    assert(p.subrange(4, 8) =~= xid);
    assert(p.subrange(16, 20) =~= client_ip());
    assert(p.subrange(20, 24) =~= server);
    assert(p.subrange(28, 44) =~= chaddr);
    assert(p.subrange(236, 240) =~= seq![99u8, 130u8, 83u8, 99u8]);
}

} // verus!

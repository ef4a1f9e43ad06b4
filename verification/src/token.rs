//! Tokens: what a node hands out with an answer to `get_peers` and wants
//! back with an announce from the same IP address. A token is the SHA-1
//! digest of the address and a secret. The secret is replaced every five
//! minutes and the one before it still counts, so a token is taken for at
//! least five and less than ten minutes.

use vstd::prelude::*;
use crate::addr::IpAddr;
use crate::id::{sha1_digest, Id};
use crate::routing::node::{elapsed, since};

verus! {

/// Milliseconds after which the secret is replaced.
pub const TOKEN_REFRESH_MS: u64 = 300_000;

/// What the store of tokens is, as a value: the secret in use, the one
/// before it, and the time at which the secret was last replaced.
pub struct TokenView {
    pub curr_secret: u32,
    pub last_secret: u32,
    pub last_refresh: u64,
}

/// The four bytes of a secret, most significant first.
pub open spec fn secret_bytes(secret: u32) -> Seq<u8> {
    seq![
        (secret / 0x100_0000) as u8,
        (secret / 0x1_0000 % 0x100) as u8,
        (secret / 0x100 % 0x100) as u8,
        (secret % 0x100) as u8,
    ]
}

/// What is digested for the token of an address under a secret: the bytes
/// of the address, then those of the secret.
pub open spec fn token_input(ip: IpAddr, secret: u32) -> Seq<u8> {
    ip.octets_spec() + secret_bytes(secret)
}

/// The token of an address under a secret.
pub open spec fn token_for(ip: IpAddr, secret: u32) -> Seq<u8> {
    sha1_digest(token_input(ip, secret))
}

/// Whether the store may be in state `new` at `now` if it was in state
/// `old` before: within five minutes of the last replacement nothing
/// changes; after five minutes the secret in use becomes the one before
/// and a new one, which chance decides, comes into use; after ten minutes
/// both secrets are new.
pub open spec fn refreshed(old: TokenView, new: TokenView, now: u64) -> bool {
    if elapsed(now, old.last_refresh) < TOKEN_REFRESH_MS {
        new == old
    } else if elapsed(now, old.last_refresh) < 2 * TOKEN_REFRESH_MS {
        new.last_secret == old.curr_secret && new.last_refresh == now
    } else {
        new.last_refresh == now
    }
}

/// Whether the store in state `v` takes `token` from the address `ip`.
pub open spec fn accepted(v: TokenView, ip: IpAddr, token: Seq<u8>) -> bool {
    token == token_for(ip, v.curr_secret) || token == token_for(ip, v.last_secret)
}

/// The tokens of two different addresses are digests of different byte
/// strings, whatever the secrets: a token that was handed out to one
/// address is taken from another only if two byte strings have one SHA-1
/// digest.
pub proof fn lemma_token_inputs_differ(x: IpAddr, y: IpAddr, s: u32, t: u32)
    requires
        x != y,
    ensures
        token_input(x, s) != token_input(y, t),
{
    let a = token_input(x, s);
    let b = token_input(y, t);
    match (x, y) {
        (IpAddr::V4(p), IpAddr::V4(q)) => {
            if p@ == q@ {
                assert(p =~= q);
            }
            let i = choose|i: int| 0 <= i < 4 && p@[i] != q@[i];
            assert(p@ !~= q@);
            assert(a[i] == p@[i]);
            assert(b[i] == q@[i]);
        },
        (IpAddr::V6(p), IpAddr::V6(q)) => {
            if p@ == q@ {
                assert(p =~= q);
            }
            let i = choose|i: int| 0 <= i < 16 && p@[i] != q@[i];
            assert(p@ !~= q@);
            assert(a[i] == p@[i]);
            assert(b[i] == q@[i]);
        },
        (IpAddr::V4(p), IpAddr::V6(q)) => {
            assert(a.len() == 8 && b.len() == 20);
        },
        (IpAddr::V6(p), IpAddr::V4(q)) => {
            assert(a.len() == 20 && b.len() == 8);
        },
    }
}

/// Calls `rand::random` of the `rand` crate for a `u32`: any number may
/// come back.
#[verifier::external_body]
fn random_secret() -> u32 {
    rand::random::<u32>()
}

/// The store of tokens.
#[derive(Debug)]
pub struct TokenStore {
    curr_secret: u32,
    last_secret: u32,
    last_refresh: u64,
}

impl View for TokenStore {
    type V = TokenView;

    closed spec fn view(&self) -> TokenView {
        TokenView {
            curr_secret: self.curr_secret,
            last_secret: self.last_secret,
            last_refresh: self.last_refresh,
        }
    }
}

impl TokenStore {
    /// A store with two secrets that chance decides, in use from `now`.
    pub fn new(now: u64) -> (store: TokenStore)
        ensures
            store@.last_refresh == now,
    {
        TokenStore { curr_secret: random_secret(), last_secret: random_secret(), last_refresh: now }
    }

    /// A store with the given secrets, in use from `now`.
    pub fn with_secrets(curr_secret: u32, last_secret: u32, now: u64) -> (store: TokenStore)
        ensures
            store@ == (TokenView { curr_secret, last_secret, last_refresh: now }),
    {
        TokenStore { curr_secret, last_secret, last_refresh: now }
    }

    /// Replaces the secrets that are due to be replaced at `now`.
    fn refresh_check(&mut self, now: u64)
        ensures
            refreshed(old(self)@, final(self)@, now),
    {
        let passed = since(now, self.last_refresh);
        if passed < TOKEN_REFRESH_MS {
            return ;
        }
        if passed < 2 * TOKEN_REFRESH_MS {
            self.last_secret = self.curr_secret;
        } else {
            self.last_secret = random_secret();
        }
        self.curr_secret = random_secret();
        self.last_refresh = now;
    }

    /// The token of an address under a secret.
    fn generate_token(ip: &IpAddr, secret: u32) -> (token: Vec<u8>)
        ensures
            token@ == token_for(*ip, secret),
    {
        let mut input: Vec<u8> = Vec::new();
        match ip {
            IpAddr::V4(octets) => {
                let mut i: usize = 0;
                while i < 4
                    invariant
                        i <= 4,
                        input@ == octets@.take(i as int),
                    decreases 4 - i,
                {
                    input.push(octets[i]);
                    assert(input@ =~= octets@.take(i as int + 1));
                    i += 1;
                }
                assert(octets@.take(4) =~= octets@);
            },
            IpAddr::V6(octets) => {
                let mut i: usize = 0;
                while i < 16
                    invariant
                        i <= 16,
                        input@ == octets@.take(i as int),
                    decreases 16 - i,
                {
                    input.push(octets[i]);
                    assert(input@ =~= octets@.take(i as int + 1));
                    i += 1;
                }
                assert(octets@.take(16) =~= octets@);
            },
        }
        input.push((secret / 0x100_0000) as u8);
        input.push((secret / 0x1_0000 % 0x100) as u8);
        input.push((secret / 0x100 % 0x100) as u8);
        input.push((secret % 0x100) as u8);
        assert(input@ =~= token_input(*ip, secret));
        let digest = Id::sha1(input.as_slice()).to_bytes();
        let mut token: Vec<u8> = Vec::new();
        let mut i: usize = 0;
        while i < 20
            invariant
                i <= 20,
                token@ == digest@.take(i as int),
            decreases 20 - i,
        {
            token.push(digest[i]);
            assert(token@ =~= digest@.take(i as int + 1));
            i += 1;
        }
        assert(digest@.take(20) =~= digest@);
        token
    }

    /// Hands out the token for an address at `now`: its token under the
    /// secret in use.
    pub fn checkout(&mut self, ip: IpAddr, now: u64) -> (token: Vec<u8>)
        ensures
            refreshed(old(self)@, final(self)@, now),
            token@ == token_for(ip, final(self)@.curr_secret),
            accepted(final(self)@, ip, token@),
    {
        self.refresh_check(now);
        Self::generate_token(&ip, self.curr_secret)
    }

    /// Whether `token` is taken from an address at `now`: whether it is
    /// the token of the address under the secret in use or the one before.
    pub fn checkin(&mut self, ip: IpAddr, token: &[u8], now: u64) -> (valid: bool)
        ensures
            refreshed(old(self)@, final(self)@, now),
            valid == accepted(final(self)@, ip, token@),
    {
        self.refresh_check(now);
        let current = Self::generate_token(&ip, self.curr_secret);
        let last = Self::generate_token(&ip, self.last_secret);
        crate::addr::bytes_equal(token, current.as_slice()) || crate::addr::bytes_equal(
            token,
            last.as_slice(),
        )
    }
}

} // verus!

use vstd::prelude::*;

verus! {

/// The key `announce`.
pub open spec fn announce_key() -> Seq<u8> {
    seq![97u8, 110, 110, 111, 117, 110, 99, 101]
}

pub(crate) fn announce_key_bytes() -> (r: Vec<u8>)
    ensures
        r@ == announce_key(),
{
    let r: Vec<u8> = vec![97, 110, 110, 111, 117, 110, 99, 101];
    assert(r@ =~= announce_key());
    r
}

/// The key `info`.
pub open spec fn info_key() -> Seq<u8> {
    seq![105u8, 110, 102, 111]
}

pub(crate) fn info_key_bytes() -> (r: Vec<u8>)
    ensures
        r@ == info_key(),
{
    let r: Vec<u8> = vec![105, 110, 102, 111];
    assert(r@ =~= info_key());
    r
}

/// The key `name`.
pub open spec fn name_key() -> Seq<u8> {
    seq![110u8, 97, 109, 101]
}

pub(crate) fn name_key_bytes() -> (r: Vec<u8>)
    ensures
        r@ == name_key(),
{
    let r: Vec<u8> = vec![110, 97, 109, 101];
    assert(r@ =~= name_key());
    r
}

/// The key `piece length`.
pub open spec fn piece_length_key() -> Seq<u8> {
    seq![112u8, 105, 101, 99, 101, 32, 108, 101, 110, 103, 116, 104]
}

pub(crate) fn piece_length_key_bytes() -> (r: Vec<u8>)
    ensures
        r@ == piece_length_key(),
{
    let r: Vec<u8> = vec![112, 105, 101, 99, 101, 32, 108, 101, 110, 103, 116, 104];
    assert(r@ =~= piece_length_key());
    r
}

/// The key `pieces`.
pub open spec fn pieces_key() -> Seq<u8> {
    seq![112u8, 105, 101, 99, 101, 115]
}

pub(crate) fn pieces_key_bytes() -> (r: Vec<u8>)
    ensures
        r@ == pieces_key(),
{
    let r: Vec<u8> = vec![112, 105, 101, 99, 101, 115];
    assert(r@ =~= pieces_key());
    r
}

/// The key `length`.
pub open spec fn length_key() -> Seq<u8> {
    seq![108u8, 101, 110, 103, 116, 104]
}

pub(crate) fn length_key_bytes() -> (r: Vec<u8>)
    ensures
        r@ == length_key(),
{
    let r: Vec<u8> = vec![108, 101, 110, 103, 116, 104];
    assert(r@ =~= length_key());
    r
}

/// The key `files`.
pub open spec fn files_key() -> Seq<u8> {
    seq![102u8, 105, 108, 101, 115]
}

pub(crate) fn files_key_bytes() -> (r: Vec<u8>)
    ensures
        r@ == files_key(),
{
    let r: Vec<u8> = vec![102, 105, 108, 101, 115];
    assert(r@ =~= files_key());
    r
}

/// The key `path`.
pub open spec fn path_key() -> Seq<u8> {
    seq![112u8, 97, 116, 104]
}

pub(crate) fn path_key_bytes() -> (r: Vec<u8>)
    ensures
        r@ == path_key(),
{
    let r: Vec<u8> = vec![112, 97, 116, 104];
    assert(r@ =~= path_key());
    r
}

/// The key `failure reason`.
pub open spec fn failure_reason_key() -> Seq<u8> {
    seq![102u8, 97, 105, 108, 117, 114, 101, 32, 114, 101, 97, 115, 111, 110]
}

pub(crate) fn failure_reason_key_bytes() -> (r: Vec<u8>)
    ensures
        r@ == failure_reason_key(),
{
    let r: Vec<u8> = vec![102, 97, 105, 108, 117, 114, 101, 32, 114, 101, 97, 115, 111, 110];
    assert(r@ =~= failure_reason_key());
    r
}

/// The key `peers`.
pub open spec fn peers_key() -> Seq<u8> {
    seq![112u8, 101, 101, 114, 115]
}

pub(crate) fn peers_key_bytes() -> (r: Vec<u8>)
    ensures
        r@ == peers_key(),
{
    let r: Vec<u8> = vec![112, 101, 101, 114, 115];
    assert(r@ =~= peers_key());
    r
}

/// The key `peer id`.
pub open spec fn peer_id_key() -> Seq<u8> {
    seq![112u8, 101, 101, 114, 32, 105, 100]
}

pub(crate) fn peer_id_key_bytes() -> (r: Vec<u8>)
    ensures
        r@ == peer_id_key(),
{
    let r: Vec<u8> = vec![112, 101, 101, 114, 32, 105, 100];
    assert(r@ =~= peer_id_key());
    r
}

/// The key `ip`.
pub open spec fn ip_key() -> Seq<u8> {
    seq![105u8, 112]
}

pub(crate) fn ip_key_bytes() -> (r: Vec<u8>)
    ensures
        r@ == ip_key(),
{
    let r: Vec<u8> = vec![105, 112];
    assert(r@ =~= ip_key());
    r
}

/// The key `port`.
pub open spec fn port_key() -> Seq<u8> {
    seq![112u8, 111, 114, 116]
}

pub(crate) fn port_key_bytes() -> (r: Vec<u8>)
    ensures
        r@ == port_key(),
{
    let r: Vec<u8> = vec![112, 111, 114, 116];
    assert(r@ =~= port_key());
    r
}
} // verus!

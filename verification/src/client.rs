use vstd::prelude::*;
use vstd::utf8::encode_utf8;
use vstd::string::StringExecFns;
use crate::bytes::append_bytes;
use crate::cipher::{
    aes256_cbc_decrypt, aes256_cbc_decrypt_blocks, aes256_cbc_encrypt, aes256_cbc_pkcs_encrypt,
    cbc_padded, pkcs_pad, random_iv,
};
use crate::digest::{sha3_256_hex, sha3_hex};
use crate::merkle::{complement_path, lemma_node_len, node_hash, strings_view, tree_node, Merkle};

verus! {

/// The text that stands for an absent sibling in a list of hashes.
pub open spec fn empty_marker() -> Seq<char> {
    "empty"@
}

/// One step of the client's check: hash the running hash text followed by
/// the next sibling's text (nothing for the absent marker).
pub open spec fn fold_step(h: Seq<char>, sibling: Seq<char>) -> Seq<char> {
    sha3_hex(
        encode_utf8(h) + if sibling == empty_marker() {
            Seq::<u8>::empty()
        } else {
            encode_utf8(sibling)
        },
    )
}

/// The hash text reached from `h` by folding in each sibling in order.
pub open spec fn client_fold(h: Seq<char>, siblings: Seq<Seq<char>>) -> Seq<char>
    decreases siblings.len(),
{
    if siblings.len() == 0 {
        h
    } else {
        client_fold(fold_step(h, siblings[0]), siblings.drop_first())
    }
}

/// Whether `file_data`, combined with the sibling hashes, leads to
/// `top_hash`: its own hash is folded with each sibling in order, the
/// running hash always on the left.
pub fn check_hashes_against_tophash(
    top_hash: String,
    file_data: &[u8],
    data_complement_hashes: &Vec<String>,
) -> (ok: bool)
    ensures
        ok == (top_hash@ == client_fold(sha3_hex(file_data@), strings_view(data_complement_hashes@))),
{
    let ghost siblings = strings_view(data_complement_hashes@);
    let marker = <String as StringExecFns>::from_str("empty");
    let mut hash_val: String = sha3_256_hex(file_data);
    let n = data_complement_hashes.len();
    assert(siblings.skip(0) =~= siblings);
    for i in 0..n
        invariant
            n == data_complement_hashes@.len(),
            siblings == strings_view(data_complement_hashes@),
            marker@ == empty_marker(),
            client_fold(hash_val@, siblings.skip(i as int))
                == client_fold(sha3_hex(file_data@), siblings),
    {
        let mut buf: Vec<u8> = Vec::new();
        append_bytes(&mut buf, hash_val.as_str().as_bytes());
        let sibling = &data_complement_hashes[i];
        if !(*sibling == marker) {
            append_bytes(&mut buf, sibling.as_str().as_bytes());
        }
        assert(siblings.skip(i as int).drop_first() =~= siblings.skip(i + 1));
        assert(siblings.skip(i as int)[0] == sibling@);
        assert(buf@ =~= encode_utf8(hash_val@) + if sibling@ == empty_marker() {
            Seq::<u8>::empty()
        } else {
            encode_utf8(sibling@)
        });
        hash_val = sha3_256_hex(buf.as_slice());
    }
    assert(siblings.skip(n as int) =~= Seq::<Seq<char>>::empty());
    top_hash == hash_val
}

/// Removal of PKCS#7 padding as the block cipher's padding step does it on
/// the last block: the last byte `b` names the pad length, and the last
/// `min(b, 16)` bytes must all equal `b`. A pad length above 16 that passes
/// that test is refused too (the cipher crate would panic on it).
pub open spec fn pkcs_strip(p: Seq<u8>) -> Option<Seq<u8>> {
    if p.len() == 0 {
        Some(p)
    } else {
        let b = p.last();
        let k: int = if b <= 16 { b as int } else { 16 };
        if k <= p.len() && (forall|j: int| 0 <= j < k ==> #[trigger] p[p.len() - 1 - j] == b) {
            if b <= 16 {
                Some(p.subrange(0, p.len() - b))
            } else {
                None
            }
        } else {
            None
        }
    }
}

/// The key that a password stands for: its UTF-8 bytes.
pub open spec fn password_key(password: Seq<char>) -> Seq<u8> {
    encode_utf8(password)
}

/// The whole blocks that CBC decryption of an upload gives, padding left
/// in place: the last 16 bytes are the IV, the rest the ciphertext.
pub open spec fn decrypted_blocks(data: Seq<u8>, key: Seq<u8>) -> Seq<u8> {
    let n = data.len() - 16;
    aes256_cbc_decrypt_blocks(key, data.subrange(n, data.len() as int), data.subrange(0, n))
}

/// The number of bytes that padding removal takes off `p`: its last byte,
/// or nothing for an empty `p`.
pub open spec fn pad_length(p: Seq<u8>) -> int {
    if p.len() == 0 {
        0
    } else {
        p.last() as int
    }
}

/// What decrypting an upload gives: decryption fails on a partial block or
/// bad padding.
pub open spec fn decryption(data: Seq<u8>, key: Seq<u8>) -> Option<Seq<u8>> {
    if (data.len() - 16) % 16 == 0 {
        pkcs_strip(decrypted_blocks(data, key))
    } else {
        None
    }
}

/// Encrypts `data` under the password with the given IV: the ciphertext
/// followed by the IV.
pub fn encrypt_data_with_iv(data: &[u8], password: &String, iv: &[u8]) -> (res: Vec<u8>)
    requires
        password_key(password@).len() == 32,
        iv@.len() == 16,
    ensures
        res@ == aes256_cbc_pkcs_encrypt(password_key(password@), iv@, data@) + iv@,
        res@ == aes256_cbc_pkcs_encrypt(encode_utf8(password@), iv@, data@) + iv@,
        res@.len() == cbc_padded(data@).len() + 16,
        decryption(res@, password_key(password@)) == Some(data@),
{
    let key = password.as_str().as_bytes();
    let mut encrypted_data = aes256_cbc_encrypt(key, iv, data);
    let ghost ct = encrypted_data@;
    append_bytes(&mut encrypted_data, iv);
    proof {
        let res = encrypted_data@;
        let n = res.len() - 16;
        assert(res.subrange(n, res.len() as int) =~= iv@);
        assert(res.subrange(0, n) =~= ct);
        lemma_strip_pad(data@);
    }
    encrypted_data
}

/// Encrypts `data` under the password with a fresh random IV; the IV is
/// appended to the ciphertext.
pub fn encrypt_data(data: &[u8], password: &String) -> (res: Vec<u8>)
    requires
        password_key(password@).len() == 32,
    ensures
        res@.len() == cbc_padded(data@).len() + 16,
        res@ == aes256_cbc_pkcs_encrypt(
            password_key(password@),
            res@.subrange(res@.len() - 16, res@.len() as int),
            data@,
        ) + res@.subrange(res@.len() - 16, res@.len() as int),
        decryption(res@, password_key(password@)) == Some(data@),
{
    let iv = random_iv();
    let res = encrypt_data_with_iv(data, password, iv.as_slice());
    assert(res@.subrange(res@.len() - 16, res@.len() as int) =~= iv@);
    res
}

/// Decrypts what `encrypt_data` produced: the last 16 bytes are the IV,
/// the rest the ciphertext. The decryption must succeed: the ciphertext
/// must be whole blocks with well-formed padding (see `try_decrypt_data`
/// for a call that tests this first).
pub fn decrypt_data(data: Vec<u8>, password: String) -> (res: Vec<u8>)
    requires
        data@.len() >= 16,
        password_key(password@).len() == 32,
        decryption(data@, password_key(password@)) is Some,
    ensures
        decryption(data@, password_key(password@)) == Some(res@),
        res@.len() == data@.len() - 16 - pad_length(decrypted_blocks(data@, password_key(password@))),
        data@.len() - 32 <= res@.len() <= data@.len() - 16,
{
    match decrypt_checked(&data, &password) {
        Some(p) => p,
        None => {
            proof {
                assert(false);
            }
            Vec::new()
        },
    }
}

/// Decrypts as `decrypt_data` does where that succeeds, and gives `None`
/// where it cannot: a ciphertext that is not whole blocks, or whose
/// padding is malformed.
pub fn try_decrypt_data(data: Vec<u8>, password: String) -> (res: Option<Vec<u8>>)
    requires
        data@.len() >= 16,
        password_key(password@).len() == 32,
    ensures
        match res {
            Some(p) => {
                &&& decryption(data@, password_key(password@)) == Some(p@)
                &&& p@.len() == data@.len() - 16 - pad_length(decrypted_blocks(data@, password_key(password@)))
                &&& data@.len() - 32 <= p@.len() <= data@.len() - 16
            },
            None => decryption(data@, password_key(password@)) is None,
        },
{
    match decrypt_checked(&data, &password) {
        Some(_) => Some(decrypt_data(data, password)),
        None => None,
    }
}

/// The decryption of `data`, or `None` where it fails.
fn decrypt_checked(data: &Vec<u8>, password: &String) -> (res: Option<Vec<u8>>)
    requires
        data@.len() >= 16,
        password_key(password@).len() == 32,
    ensures
        match res {
            Some(p) => {
                &&& decryption(data@, password_key(password@)) == Some(p@)
                &&& p@.len() == data@.len() - 16 - pad_length(decrypted_blocks(data@, password_key(password@)))
                &&& data@.len() - 32 <= p@.len() <= data@.len() - 16
            },
            None => decryption(data@, password_key(password@)) is None,
        },
{
    let split = data.len() - 16;
    let init_vector = copy_tail(data.as_slice(), split);
    let encrypted = copy_head(data.as_slice(), split);
    let key = password.as_str().as_bytes();
    match aes256_cbc_decrypt(key, init_vector.as_slice(), encrypted.as_slice()) {
        Some(p) => strip_padding(&p),
        None => None,
    }
}

/// Removes PKCS#7 padding; see `pkcs_strip`.
fn strip_padding(p: &Vec<u8>) -> (res: Option<Vec<u8>>)
    ensures
        match res {
            Some(v) => pkcs_strip(p@) == Some(v@),
            None => pkcs_strip(p@) is None,
        },
        res matches Some(v) ==> v@.len() <= p@.len() <= v@.len() + 16,
        res matches Some(v) ==> v@.len() == p@.len() - pad_length(p@),
{
    let len = p.len();
    if len == 0 {
        return Some(Vec::new());
    }
    let b = p[len - 1];
    assert(b == p@.last());
    let k: usize = if b <= 16 { b as usize } else { 16 };
    if k > len {
        assert(pkcs_strip(p@) is None);
        return None;
    }
    let mut j: usize = 0;
    while j < k
        invariant
            k <= len,
            0 < len == p@.len(),
            b == p@.last(),
            k == (if b <= 16 { b as int } else { 16 }),
            forall|t: int| 0 <= t < j ==> #[trigger] p@[len - 1 - t] == b,
        decreases k - j,
    {
        if p[len - 1 - j] != b {
            proof {
                let jj = j as int;
                assert(p@[p@.len() - 1 - jj] != b);
                assert(!(forall|t: int| 0 <= t < k ==> #[trigger] p@[p@.len() - 1 - t] == b));
            }
            return None;
        }
        j = j + 1;
    }
    if b <= 16 {
        Some(copy_head(p.as_slice(), len - b as usize))
    } else {
        None
    }
}

/// The first `n` bytes of `s`.
fn copy_head(s: &[u8], n: usize) -> (v: Vec<u8>)
    requires
        n <= s@.len(),
    ensures
        v@ == s@.subrange(0, n as int),
{
    let mut v: Vec<u8> = Vec::new();
    for i in 0..n
        invariant
            n <= s@.len(),
            v@ == s@.subrange(0, i as int),
    {
        v.push(s[i]);
    }
    v
}

/// The bytes of `s` from index `n` on.
fn copy_tail(s: &[u8], n: usize) -> (v: Vec<u8>)
    requires
        n <= s@.len(),
    ensures
        v@ == s@.subrange(n as int, s@.len() as int),
{
    let mut v: Vec<u8> = Vec::new();
    let len = s.len();
    for i in n..len
        invariant
            len == s@.len(),
            n <= i <= len,
            v@ == s@.subrange(n as int, i as int),
    {
        v.push(s[i]);
    }
    v
}

/// Stripping the padding that encryption added gives the data back.
pub proof fn lemma_strip_pad(data: Seq<u8>)
    ensures
        pkcs_strip(cbc_padded(data)) == Some(data),
        cbc_padded(data).len() % 16 == 0,
{
    if data.len() == 0 {
        return;
    }
    let p = pkcs_pad(data);
    let r = 16 - data.len() % 16;
    assert(p.len() == data.len() + r);
    assert(p.last() == r as u8);
    assert(forall|j: int| 0 <= j < r ==> #[trigger] p[p.len() - 1 - j] == r as u8);
    assert(p.subrange(0, p.len() - r) =~= data);
}

/// A sibling hash as the client's check takes it: the hash text, or the
/// absent marker.
pub open spec fn or_marker(node: Option<Seq<char>>) -> Seq<char> {
    match node {
        Some(h) => h,
        None => empty_marker(),
    }
}

/// The siblings on the path of the first file's leaf (node 8): nodes 9, 5
/// and 3, lowest first, absent ones given as the marker.
pub open spec fn first_file_siblings(files: Seq<Seq<u8>>) -> Seq<Seq<char>> {
    seq![or_marker(tree_node(files, 9)), or_marker(tree_node(files, 5)), or_marker(tree_node(files, 3))]
}

proof fn lemma_step_matches(m: Merkle, left: int, right: int)
    requires
        m.wf(),
        1 <= left < 16,
        right == left + 1,
        left % 2 == 0,
        tree_node(m@, left) is Some,
    ensures
        fold_step(tree_node(m@, left).unwrap(), or_marker(tree_node(m@, right)))
            == tree_node(m@, left / 2).unwrap(),
{
    lemma_node_len(m, right);
    reveal_strlit("empty");
    let parent = left / 2;
    assert(2 * parent == left);
    assert(tree_node(m@, parent) == Some(node_hash(tree_node(m@, left), tree_node(m@, right))));
    match tree_node(m@, right) {
        Some(h) => {
            assert(h.len() == 64);
            assert(empty_marker().len() == 5);
            assert(h != empty_marker());
        },
        None => {},
    }
}

/// The client's check accepts the first stored file against the root hash
/// when given the sibling hashes on that file's own path (absent siblings
/// as the marker): folding them in reproduces the server's root.
pub proof fn lemma_first_file_reaches_root(m: Merkle)
    requires
        m.wf(),
        m@.len() >= 1,
    ensures
        client_fold(sha3_hex(m@[0]), first_file_siblings(m@)) == tree_node(m@, 1).unwrap(),
{
    let v = m@;
    let s = first_file_siblings(v);
    assert(tree_node(v, 8) == Some(sha3_hex(v[0])));
    lemma_step_matches(m, 8, 9);
    assert(tree_node(v, 4) is Some);
    lemma_step_matches(m, 4, 5);
    assert(tree_node(v, 2) is Some);
    lemma_step_matches(m, 2, 3);
    let h0 = sha3_hex(v[0]);
    let h1 = fold_step(h0, s[0]);
    let h2 = fold_step(h1, s[1]);
    let h3 = fold_step(h2, s[2]);
    let s1 = s.drop_first();
    let s2 = s1.drop_first();
    let s3 = s2.drop_first();
    assert(s1[0] == s[1]);
    assert(s2[0] == s[2]);
    assert(s3 =~= Seq::<Seq<char>>::empty());
    assert(client_fold(h3, s3) == h3);
    assert(client_fold(h2, s2) == client_fold(h3, s3));
    assert(client_fold(h1, s1) == client_fold(h2, s2));
    assert(client_fold(h0, s) == client_fold(h1, s1));
}

/// The client's check with no sibling hashes accepts each stored file
/// against its own leaf: the client hashes the file's bytes exactly as the
/// server did when it stored them.
pub proof fn lemma_leaf_accepts_file(m: Merkle, k: int)
    requires
        m.wf(),
        1 <= k <= m.file_count,
    ensures
        m.tree@[k + 7] is Some,
        m.tree@[k + 7].unwrap()@ == client_fold(sha3_hex(m.files@[k].unwrap()@), Seq::<Seq<char>>::empty()),
{
    assert(m.node(k + 7) == tree_node(m@, k + 7));
    assert(m@[k - 1] == m.files@[k].unwrap()@);
}

/// The proof that the server serves for the first file (its complementary
/// hashes) verifies against the root once the first file's siblings at
/// every level exist, that is with five files or more: the client's fold
/// over it reproduces the root hash.
pub proof fn lemma_served_first_file_proof_verifies(m: Merkle)
    requires
        m.wf(),
        m@.len() >= 5,
    ensures
        client_fold(sha3_hex(m@[0]), complement_path(m@, 8)) == tree_node(m@, 1).unwrap(),
{
    let v = m@;
    assert(tree_node(v, 9) is Some);
    assert(tree_node(v, 10) is Some);
    assert(tree_node(v, 5) is Some);
    assert(tree_node(v, 12) is Some);
    assert(tree_node(v, 6) is Some);
    assert(tree_node(v, 3) is Some);
    let c1 = complement_path(v, 1);
    let c2 = complement_path(v, 2);
    let c4 = complement_path(v, 4);
    let c8 = complement_path(v, 8);
    assert(c1 =~= Seq::<Seq<char>>::empty());
    assert(c2 =~= seq![tree_node(v, 3).unwrap()] + c1);
    assert(c4 =~= seq![tree_node(v, 5).unwrap()] + c2);
    assert(c8 =~= seq![tree_node(v, 9).unwrap()] + c4);
    assert(c8 =~= first_file_siblings(v));
    lemma_first_file_reaches_root(m);
}

/// The AES key is exactly the UTF-8 bytes of the password, all of them.
pub proof fn lemma_key_is_password_bytes(password: Seq<char>)
    ensures
        password_key(password) == encode_utf8(password),
{
}

/// One step of the client's check digests the running hash text followed by
/// the whole sibling text, even when the two are equal; only the absent
/// marker contributes nothing.
pub proof fn lemma_fold_step_digests_both(h: Seq<char>, sibling: Seq<char>)
    ensures
        sibling != "empty"@ ==> fold_step(h, sibling) == sha3_hex(encode_utf8(h) + encode_utf8(sibling)),
        sibling == "empty"@ ==> fold_step(h, sibling) == sha3_hex(encode_utf8(h)),
{
    assert(encode_utf8(h) + Seq::<u8>::empty() =~= encode_utf8(h));
}

/// The client's check folds the siblings in the order given: with none it
/// keeps the file's hash, and one more sibling at the end takes one more
/// step from where the others left off.
pub proof fn lemma_client_fold_in_order(h: Seq<char>, siblings: Seq<Seq<char>>, last: Seq<char>)
    ensures
        client_fold(h, Seq::<Seq<char>>::empty()) == h,
        client_fold(h, siblings.push(last)) == fold_step(client_fold(h, siblings), last),
    decreases siblings.len(),
{
    if siblings.len() > 0 {
        lemma_client_fold_in_order(fold_step(h, siblings[0]), siblings.drop_first(), last);
        assert(siblings.push(last)[0] == siblings[0]);
        assert(siblings.push(last).drop_first() =~= siblings.drop_first().push(last));
    } else {
        assert(siblings.push(last)[0] == last);
        assert(siblings.push(last).drop_first() =~= Seq::<Seq<char>>::empty());
        assert(client_fold(fold_step(h, last), Seq::<Seq<char>>::empty()) == fold_step(h, last));
        assert(siblings =~= Seq::<Seq<char>>::empty());
    }
}

} // verus!

use vstd::prelude::*;
use vstd::utf8::encode_utf8;
use crate::merkle::{complement_path, strings_view, tree_node, Merkle, LEAF_COUNT};
use crate::messages::{ClientToServerCommand, ServerToClientResponse};

verus! {

/// `i` is the first position at which `names` holds `name`.
pub open spec fn is_first_match(names: Seq<Seq<char>>, name: Seq<char>, i: int) -> bool {
    &&& 0 <= i < names.len()
    &&& names[i] == name
    &&& forall|j: int| 0 <= j < i ==> names[j] != name
}

/// `name` occurs nowhere in `names`.
pub open spec fn no_match(names: Seq<Seq<char>>, name: Seq<char>) -> bool {
    forall|j: int| 0 <= j < names.len() ==> names[j] != name
}

/// The UTF-8 bytes of `name` begin the UTF-8 bytes of `filter`.
pub open spec fn name_prefixes(filter: Seq<char>, name: Seq<char>) -> bool {
    encode_utf8(filter).len() >= encode_utf8(name).len()
        && encode_utf8(filter).subrange(0, encode_utf8(name).len() as int) == encode_utf8(name)
}

/// The names listed for a filter: in order, every name that is not a
/// prefix of the filter.
pub open spec fn listing(names: Seq<Seq<char>>, filter: Seq<char>) -> Seq<Seq<char>>
    decreases names.len(),
{
    if names.len() == 0 {
        seq![]
    } else {
        let rest = listing(names.drop_last(), filter);
        if name_prefixes(filter, names.last()) {
            rest
        } else {
            rest.push(names.last())
        }
    }
}

/// Whether `a` is a prefix of `b`.
fn is_byte_prefix(a: &[u8], b: &[u8]) -> (res: bool)
    ensures
        res == (a@.len() <= b@.len() && b@.subrange(0, a@.len() as int) == a@),
{
    let n = a.len();
    if n > b.len() {
        return false;
    }
    let mut i: usize = 0;
    while i < n
        invariant
            n == a@.len() <= b@.len(),
            0 <= i <= n,
            forall|j: int| 0 <= j < i ==> a@[j] == b@[j],
        decreases n - i,
    {
        if a[i] != b[i] {
            assert(b@.subrange(0, n as int)[i as int] != a@[i as int]);
            return false;
        }
        i = i + 1;
    }
    assert(b@.subrange(0, n as int) =~= a@);
    true
}

/// The first position of `name` among `names`, if any.
pub fn find_file(names: &Vec<String>, name: &String) -> (res: Option<usize>)
    ensures
        match res {
            Some(i) => is_first_match(strings_view(names@), name@, i as int),
            None => no_match(strings_view(names@), name@),
        },
        res is None <==> !strings_view(names@).contains(name@),
        res matches Some(i) ==> i < names@.len() && names@[i as int]@ == name@
            && forall|j: int| 0 <= j < i ==> names@[j]@ != name@,
{
    proof {
        lemma_match_means_present(strings_view(names@), name@);
    }
    let n = names.len();
    for i in 0..n
        invariant
            n == names@.len(),
            forall|j: int| 0 <= j < i ==> strings_view(names@)[j] != name@,
            forall|j: int| 0 <= j < i ==> names@[j]@ != name@,
    {
        if names[i] == *name {
            return Some(i);
        }
    }
    None
}

/// The names that a listing with `filter` shows: each name, in order,
/// unless it is a prefix of the filter.
pub fn list_files(names: &Vec<String>, filter: &String) -> (res: Vec<String>)
    ensures
        strings_view(res@) == listing(strings_view(names@), filter@),
{
    let mut files: Vec<String> = Vec::new();
    let n = names.len();
    let ghost all = strings_view(names@);
    for i in 0..n
        invariant
            n == names@.len(),
            all == strings_view(names@),
            strings_view(files@) == listing(all.subrange(0, i as int), filter@),
    {
        let name = &names[i];
        let skip = is_byte_prefix(name.as_str().as_bytes(), filter.as_str().as_bytes());
        let ghost before = files@;
        if !skip {
            files.push(name.clone());
        }
        assert(all.subrange(0, i + 1).drop_last() =~= all.subrange(0, i as int));
        assert(all.subrange(0, i + 1).last() == name@);
        assert(strings_view(files@) =~= listing(all.subrange(0, i + 1), filter@));
    }
    assert(all.subrange(0, n as int) =~= all);
    files
}

/// The server's answer to one command. `stored_names` are the names in the
/// stored records, in order, and `upload_record` the serialized record of
/// an upload: a raw message is echoed; an upload stores the record and
/// answers with the new root hash; a fetch answers with the first record
/// of that name and the sibling hashes on its leaf's path, or that
/// no file has the name; a listing answers with the names that are not a
/// prefix of its filter.
pub fn handle_command(
    merkle: &mut Merkle,
    cmd: ClientToServerCommand,
    stored_names: &Vec<String>,
    upload_record: &[u8],
) -> (resp: ServerToClientResponse)
    requires
        old(merkle).wf(),
        stored_names@.len() == old(merkle)@.len(),
        cmd is Upload ==> old(merkle)@.len() < LEAF_COUNT,
    ensures
        final(merkle).wf(),
        !(cmd is Upload) ==> *final(merkle) == *old(merkle),
        cmd matches ClientToServerCommand::Raw(msg) ==> resp matches ServerToClientResponse::Raw(m)
            && m@ == msg@,
        cmd matches ClientToServerCommand::Upload(name, _) ==> {
            &&& final(merkle)@ == old(merkle)@.push(upload_record@)
            &&& resp matches ServerToClientResponse::UploadOk(n, root) && n@ == name@
                && Some(root@) == tree_node(final(merkle)@, 1)
        },
        cmd matches ClientToServerCommand::Get(name) ==> {
            ||| exists|i: int| {
                &&& is_first_match(strings_view(stored_names@), name@, i)
                &&& resp matches ServerToClientResponse::File(file, hashes)
                &&& file@ == old(merkle)@[i]
                &&& strings_view(hashes@) == complement_path(old(merkle)@, i + 8)
            }
            ||| {
                &&& no_match(strings_view(stored_names@), name@)
                &&& resp matches ServerToClientResponse::FileNotFound(n)
                &&& n@ == name@
            }
        },
        cmd matches ClientToServerCommand::List(filter) ==> resp matches ServerToClientResponse::FileListing(
            files,
        ) && strings_view(files@) == listing(strings_view(stored_names@), filter@),
{
    match cmd {
        ClientToServerCommand::Raw(msg) => ServerToClientResponse::Raw(msg),
        ClientToServerCommand::Upload(name, _data) => {
            merkle.add_file(upload_record);
            let root_hash = match merkle.get_root_hash() {
                Ok(h) => h,
                Err(_) => {
                    proof {
                        assert(false);
                    }
                    String::new()
                },
            };
            ServerToClientResponse::UploadOk(name, root_hash)
        },
        ClientToServerCommand::Get(name) => {
            match find_file(stored_names, &name) {
                Some(i) => {
                    let (mut files, hashes) = merkle.get_complement_nodes(i + 1);
                    let file = files.pop().unwrap();
                    ServerToClientResponse::File(file, hashes)
                },
                None => ServerToClientResponse::FileNotFound(name),
            }
        },
        ClientToServerCommand::List(filter) => {
            ServerToClientResponse::FileListing(list_files(stored_names, &filter))
        },
    }
}

/// A name is a prefix of the filter exactly when its UTF-8 bytes are no
/// more than the filter's and each equals the filter's byte at the same
/// position.
pub proof fn lemma_name_prefixes_bytewise(filter: Seq<char>, name: Seq<char>)
    ensures
        name_prefixes(filter, name) <==> (encode_utf8(name).len() <= encode_utf8(filter).len() && forall|i: int|
            0 <= i < encode_utf8(name).len() ==> #[trigger] encode_utf8(filter)[i] == encode_utf8(name)[i]),
{
    let f = encode_utf8(filter);
    let n = encode_utf8(name);
    if n.len() <= f.len() && (forall|i: int| 0 <= i < n.len() ==> #[trigger] f[i] == n[i]) {
        assert(f.subrange(0, n.len() as int) =~= n);
    }
    if name_prefixes(filter, name) {
        assert forall|i: int| 0 <= i < n.len() implies #[trigger] f[i] == n[i] by {
            assert(f.subrange(0, n.len() as int)[i] == f[i]);
        }
    }
}

/// A name appears in the listing exactly when it is among the stored names
/// and its UTF-8 bytes do not all match the filter's leading bytes; every
/// stored name that is not a prefix of the filter is listed.
pub proof fn lemma_listing_members(names: Seq<Seq<char>>, filter: Seq<char>)
    ensures
        forall|x: Seq<char>| #[trigger] listing(names, filter).contains(x) <==> (names.contains(x) && !(
            encode_utf8(x).len() <= encode_utf8(filter).len() && forall|i: int|
                0 <= i < encode_utf8(x).len() ==> #[trigger] encode_utf8(filter)[i] == encode_utf8(x)[i])),
    decreases names.len(),
{
    if names.len() > 0 {
        let init = names.drop_last();
        let last = names.last();
        lemma_listing_members(init, filter);
        lemma_name_prefixes_bytewise(filter, last);
        assert forall|x: Seq<char>| #[trigger] listing(names, filter).contains(x) <==> (names.contains(x) && !(
            encode_utf8(x).len() <= encode_utf8(filter).len() && forall|i: int|
                0 <= i < encode_utf8(x).len() ==> #[trigger] encode_utf8(filter)[i] == encode_utf8(x)[i])) by {
            lemma_name_prefixes_bytewise(filter, x);
            assert(names =~= init.push(last));
            if names.contains(x) && x != last {
                let j = choose|j: int| 0 <= j < names.len() && names[j] == x;
                assert(init[j] == x);
            }
            if init.contains(x) {
                let j = choose|j: int| 0 <= j < init.len() && init[j] == x;
                assert(names[j] == x);
            }
            if x == last {
                assert(names[names.len() - 1] == x);
            }
            if listing(names, filter).contains(x) && !listing(init, filter).contains(x) {
                let r = listing(init, filter);
                let j = choose|j: int| 0 <= j < r.push(last).len() && r.push(last)[j] == x;
                assert(j == r.len());
            }
            if listing(init, filter).contains(x) {
                let r = listing(init, filter);
                let j = choose|j: int| 0 <= j < r.len() && r[j] == x;
                assert(r.push(last)[j] == x);
            }
            if x == last && !name_prefixes(filter, last) {
                let r = listing(init, filter);
                assert(r.push(last)[r.len() as int] == x);
            }
        }
    } else {
        assert forall|x: Seq<char>| !#[trigger] listing(names, filter).contains(x) by {}
    }
}

/// A name is reported absent exactly when no stored name equals it; a name
/// that is stored is always found, at its first position.
pub proof fn lemma_match_means_present(names: Seq<Seq<char>>, name: Seq<char>)
    ensures
        no_match(names, name) <==> !names.contains(name),
        forall|i: int| #[trigger] is_first_match(names, name, i) ==> {
            &&& 0 <= i < names.len()
            &&& names[i] == name
            &&& forall|j: int| 0 <= j < i ==> names[j] != name
        },
{
    if names.contains(name) {
        let j = choose|j: int| 0 <= j < names.len() && names[j] == name;
        assert(names[j] == name);
    }
}

/// The listing is the stored names in their order, repeats kept, less
/// exactly those whose UTF-8 bytes all match the filter's leading bytes.
pub proof fn lemma_listing_is_filtered_names(names: Seq<Seq<char>>, filter: Seq<char>)
    ensures
        listing(names, filter) == names.filter(
            |x: Seq<char>|
                !(encode_utf8(x).len() <= encode_utf8(filter).len() && forall|i: int|
                    0 <= i < encode_utf8(x).len() ==> #[trigger] encode_utf8(filter)[i] == encode_utf8(x)[i]),
        ),
    decreases names.len(),
{
    reveal(Seq::filter);
    if names.len() > 0 {
        lemma_listing_is_filtered_names(names.drop_last(), filter);
        lemma_name_prefixes_bytewise(filter, names.last());
    }
}

} // verus!

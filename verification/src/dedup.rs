//! Leaving out files that are in a list already: under the same path, or by another name.

use vstd::bytes::{lemma_auto_spec_u64_to_from_le_bytes, spec_u64_to_le_bytes, u64_to_le_bytes};
use vstd::prelude::*;

use crate::config::Config;
use crate::files::{FileId, FileInfoNoLen};
use crate::unique::{
    first_by_key, first_positions, first_positions_are_first, first_positions_of_distinct_keys,
    first_positions_of_like_keys, keys_of, one_more_item, unique_by_key,
};

verus! {

/// The items of a list of keyed items.
pub open spec fn items_of<T>(items: Seq<(Vec<u8>, T)>) -> Seq<T> {
    Seq::new(items.len(), |i: int| items[i].1)
}

/// The texts of the paths of a list of files.
pub open spec fn path_texts(files: Seq<FileInfoNoLen>) -> Seq<Seq<u8>> {
    Seq::new(files.len(), |i: int| files[i].path@)
}

/// The hashes of the identifiers of a list of files.
pub open spec fn id_hashes(files: Seq<FileInfoNoLen>) -> Seq<u64> {
    Seq::new(files.len(), |i: int| files[i].id_hash)
}

/// The files without those whose path is in the list before them.
pub open spec fn unique_paths(files: Seq<FileInfoNoLen>) -> Seq<FileInfoNoLen> {
    first_by_key(path_texts(files), files)
}

/// The `i`-th reply, where there is one. A missing reply is like that of a file that could not be
/// read.
pub open spec fn reply<T>(replies: Seq<Option<T>>, i: int) -> Option<T> {
    if 0 <= i < replies.len() {
        replies[i]
    } else {
        None
    }
}

/// What tells each of the first `n` files from the others: its identifier, or its position if its
/// identifier could not be read.
pub open spec fn link_keys(ids: Seq<Option<FileId>>, n: nat) -> Seq<Result<FileId, int>> {
    Seq::new(
        n,
        |i: int|
            match reply(ids, i) {
                Some(id) => Ok(id),
                None => Err(i),
            },
    )
}

/// The files without those that are another name of a file before them, unless such names count
/// as copies. A file whose identifier could not be read is not taken for another name. Where no
/// two hashes of identifiers are equal, no identifiers are looked at.
pub open spec fn pruned_links(
    config: Config,
    files: Seq<FileInfoNoLen>,
    ids: Seq<Option<FileId>>,
) -> Seq<FileInfoNoLen> {
    if config.hard_links || id_hashes(files).no_duplicates() {
        files
    } else {
        first_by_key(link_keys(ids, files.len()), files)
    }
}

/// Whether the identifiers of the files have to be read.
pub open spec fn needs_ids(config: Config, files: Seq<FileInfoNoLen>) -> bool {
    !config.hard_links && !id_hashes(files).no_duplicates()
}

/// Keeps the first file of each key.
pub fn deduplicate(files: Vec<(Vec<u8>, FileInfoNoLen)>) -> (kept: Vec<FileInfoNoLen>)
    ensures
        kept@ == first_by_key(keys_of(files@), items_of(files@)),
{
    let ghost all = files@;
    let unique = unique_by_key(files);
    let ghost items = unique@;
    proof {
        first_positions_are_first(keys_of(all));
    }
    let mut kept: Vec<FileInfoNoLen> = Vec::new();
    for item in it: unique
        invariant
            it.seq() == items,
            kept@ =~= items_of(items).take(it.index() as int),
    {
        kept.push(item.1);
    }
    assert(kept@ =~= first_by_key(keys_of(all), items_of(all)));
    kept
}

/// Keeps the first file of each path, going by the text of the path and not by what is in the
/// file.
pub fn remove_duplicate_paths(files: Vec<FileInfoNoLen>) -> (kept: Vec<FileInfoNoLen>)
    ensures
        kept@ == unique_paths(files@),
{
    let ghost all = files@;
    let mut keyed: Vec<(Vec<u8>, FileInfoNoLen)> = Vec::new();
    for file in it: files
        invariant
            it.seq() == all,
            items_of(keyed@) =~= all.take(it.index() as int),
            keys_of(keyed@) =~= path_texts(all).take(it.index() as int),
    {
        let key = file.path.text.clone();
        assert(key@ =~= file.path@);
        let ghost before = keyed@;
        keyed.push((key, file));
        proof {
            assert(items_of(keyed@) =~= items_of(before).push(file));
            assert(keys_of(keyed@) =~= keys_of(before).push(file.path@));
        }
    }
    assert(items_of(keyed@) =~= all);
    assert(keys_of(keyed@) =~= path_texts(all));
    deduplicate(keyed)
}

/// What tells a file from others as a byte string: the inode and the device of an identifier, or
/// else the position.
spec fn key_bytes(key: Result<FileId, int>) -> Seq<u8> {
    match key {
        Ok(id) => spec_u64_to_le_bytes(id.inode) + spec_u64_to_le_bytes(id.device),
        Err(i) => spec_u64_to_le_bytes(i as u64),
    }
}

/// Different keys have different byte strings.
proof fn key_bytes_are_different(a: Result<FileId, int>, b: Result<FileId, int>)
    requires
        a matches Err(i) ==> 0 <= i <= u64::MAX,
        b matches Err(j) ==> 0 <= j <= u64::MAX,
    ensures
        key_bytes(a) == key_bytes(b) <==> a == b,
{
    lemma_auto_spec_u64_to_from_le_bytes();
    assert(key_bytes(a).len() == if a is Ok { 16nat } else { 8 });
    assert(key_bytes(b).len() == if b is Ok { 16nat } else { 8 });
    if key_bytes(a) == key_bytes(b) {
        if let (Ok(x), Ok(y)) = (a, b) {
            assert(spec_u64_to_le_bytes(x.inode) =~= key_bytes(a).take(8));
            assert(spec_u64_to_le_bytes(y.inode) =~= key_bytes(b).take(8));
            assert(spec_u64_to_le_bytes(x.device) =~= key_bytes(a).skip(8));
            assert(spec_u64_to_le_bytes(y.device) =~= key_bytes(b).skip(8));
        }
    }
}

/// Writes what tells the file at position `i` from others as a byte string.
fn link_key(id: Option<FileId>, i: usize) -> (key: Vec<u8>)
    ensures
        key@ == key_bytes(
            match id {
                Some(id) => Ok(id),
                None => Err(i as int),
            },
        ),
{
    match id {
        None => u64_to_le_bytes(i as u64),
        Some(id) => {
            let mut key = u64_to_le_bytes(id.inode);
            let mut device = u64_to_le_bytes(id.device);
            key.append(&mut device);
            key
        },
    }
}

/// Whether the identifiers of the files have to be read before other names of the same file can
/// be left out: not if such names count as copies, nor if no two hashes of identifiers are equal.
pub fn needs_file_ids(config: &Config, files: &Vec<FileInfoNoLen>) -> (needed: bool)
    ensures
        needed == needs_ids(*config, files@),
        needed == !(config.hard_links || id_hashes(files@).no_duplicates()),
{
    if config.hard_links {
        return false;
    }
    let mut keyed: Vec<(Vec<u8>, ())> = Vec::new();
    for i in 0..files.len()
        invariant
            keyed@.len() == i,
            forall|j: int|
                0 <= j < i ==> #[trigger] keyed@[j].0@ == spec_u64_to_le_bytes(files@[j].id_hash),
    {
        keyed.push((u64_to_le_bytes(files[i].id_hash), ()));
    }
    let ghost keys = keys_of(keyed@);
    let unique = unique_by_key(keyed);
    proof {
        lemma_auto_spec_u64_to_from_le_bytes();
        assert forall|i: int, j: int|
            #![trigger keys[i], keys[j]]
            #![trigger id_hashes(files@)[i], id_hashes(files@)[j]]
            0 <= i < keys.len() && 0 <= j < keys.len() implies (keys[i] == keys[j] <==> id_hashes(
            files@,
        )[i] == id_hashes(files@)[j]) by {
            assert(keys[i] == spec_u64_to_le_bytes(files@[i].id_hash));
            assert(keys[j] == spec_u64_to_le_bytes(files@[j].id_hash));
        }
        first_positions_of_like_keys(keys, id_hashes(files@));
        first_positions_of_distinct_keys(id_hashes(files@));
    }
    unique.len() != files.len()
}

/// Unless the names of one file count as copies, leaves out files that are another name of a file
/// before them, by the identifiers that were read for the files. Files whose identifier could not
/// be read all stay.
pub fn prune_links_if_needed(
    config: &Config,
    files: Vec<FileInfoNoLen>,
    ids: &Vec<Option<FileId>>,
) -> (kept: Vec<FileInfoNoLen>)
    ensures
        kept@ == pruned_links(*config, files@, ids@),
{
    if !needs_file_ids(config, &files) {
        return files;
    }
    let ghost all = files@;
    let ghost keys = link_keys(ids@, all.len());
    let mut keyed: Vec<(Vec<u8>, FileInfoNoLen)> = Vec::new();
    let count: usize = files.len();
    let mut i: usize = 0;
    for file in it: files
        invariant
            it.seq() == all,
            i == it.index(),
            i <= all.len() == count,
            keys == link_keys(ids@, all.len()),
            items_of(keyed@) =~= all.take(i as int),
            forall|j: int| 0 <= j < i ==> #[trigger] keyed@[j].0@ == key_bytes(keys[j]),
    {
        let id = if i < ids.len() {
            ids[i]
        } else {
            None
        };
        let ghost before = keyed@;
        keyed.push((link_key(id, i), file));
        proof {
            assert(items_of(keyed@) =~= items_of(before).push(file));
        }
        i = i + 1;
    }
    proof {
        assert(items_of(keyed@) =~= all);
        let bytes = keys_of(keyed@);
        assert forall|i: int, j: int|
            #![trigger bytes[i], bytes[j]]
            #![trigger keys[i], keys[j]]
            0 <= i < keys.len() && 0 <= j < keys.len() implies (bytes[i] == bytes[j] <==> keys[i]
            == keys[j]) by {
            assert(bytes[i] == keyed@[i].0@ && bytes[j] == keyed@[j].0@);
            key_bytes_are_different(keys[i], keys[j]);
        }
        first_positions_of_like_keys(bytes, keys);
    }
    deduplicate(keyed)
}

/// A reply is what was read, and a missing reply is none.
pub proof fn reply_is_what_was_read<T>(replies: Seq<Option<T>>, i: int)
    ensures
        0 <= i < replies.len() ==> reply(replies, i) == replies[i],
        !(0 <= i < replies.len()) ==> reply(replies, i) is None,
{
}

/// One more keyed file is kept if its key, byte for byte, did not occur before.
pub proof fn one_more_keyed_file(
    files: Seq<(Vec<u8>, FileInfoNoLen)>,
    key: Vec<u8>,
    file: FileInfoNoLen,
)
    ensures
        first_by_key(
            keys_of(Seq::<(Vec<u8>, FileInfoNoLen)>::empty()),
            items_of(Seq::<(Vec<u8>, FileInfoNoLen)>::empty()),
        ).len() == 0,
        ({
            let before = first_by_key(keys_of(files), items_of(files));
            let more = files.push((key, file));
            let after = first_by_key(keys_of(more), items_of(more));
            &&& (exists|i: int| 0 <= i < files.len() && (#[trigger] files[i]).0@ == key@) ==> after
                == before
            &&& (forall|i: int| 0 <= i < files.len() ==> (#[trigger] files[i]).0@ != key@) ==> after
                == before.push(file)
        }),
{
    let more = files.push((key, file));
    let keys = keys_of(files);
    assert(keys_of(more) =~= keys.push(key@));
    assert(items_of(more) =~= items_of(files).push(file));
    one_more_item(keys, items_of(files), key@, file);
    if exists|i: int| 0 <= i < files.len() && (#[trigger] files[i]).0@ == key@ {
        let i = choose|i: int| 0 <= i < files.len() && (#[trigger] files[i]).0@ == key@;
        assert(keys[i] == key@);
    }
    if forall|i: int| 0 <= i < files.len() ==> (#[trigger] files[i]).0@ != key@ {
        assert forall|i: int| 0 <= i < keys.len() implies #[trigger] keys[i] != key@ by {
            assert(files[i].0@ != key@);
        }
    }
}

/// One more file is kept if the text of its path did not occur before.
pub proof fn one_more_path(files: Seq<FileInfoNoLen>, file: FileInfoNoLen)
    ensures
        unique_paths(Seq::empty()).len() == 0,
        (exists|i: int| 0 <= i < files.len() && (#[trigger] files[i]).path.text@ == file.path.text@)
            ==> unique_paths(files.push(file)) == unique_paths(files),
        (forall|i: int| 0 <= i < files.len() ==> (#[trigger] files[i]).path.text@ != file.path.text@)
            ==> unique_paths(files.push(file)) == unique_paths(files).push(file),
{
    let texts = path_texts(files);
    assert(path_texts(files.push(file)) =~= texts.push(file.path@));
    one_more_item(texts, files, file.path@, file);
    if exists|i: int| 0 <= i < files.len() && (#[trigger] files[i]).path.text@ == file.path.text@ {
        let i = choose|i: int|
            0 <= i < files.len() && (#[trigger] files[i]).path.text@ == file.path.text@;
        assert(texts[i] == file.path@);
    }
    if forall|i: int| 0 <= i < files.len() ==> (#[trigger] files[i]).path.text@ != file.path.text@ {
        assert forall|i: int| 0 <= i < texts.len() implies #[trigger] texts[i] != file.path@ by {
            assert(files[i].path.text@ != file.path.text@);
        }
    }
}

/// Whether the file at `i` has the identifier of no file before it, or none that was read.
pub open spec fn has_new_id(ids: Seq<Option<FileId>>, i: int) -> bool {
    i < ids.len() ==> ids[i] is None || forall|j: int| 0 <= j < i ==> #[trigger] ids[j] != ids[i]
}

/// All files stay if names count as copies, or if the hashes of the identifiers are different. If
/// names do not count and two hashes are equal, just those files stay, in their order, that have
/// the identifier of no file before them, or none that was read.
pub proof fn pruning_goes_by_identifiers(
    config: Config,
    files: Seq<FileInfoNoLen>,
    ids: Seq<Option<FileId>>,
) -> (positions: Seq<int>)
    ensures
        ({
            let kept = pruned_links(config, files, ids);
            let alike = exists|i: int, j: int|
                0 <= i < j < files.len() && (#[trigger] files[i]).id_hash == (
                #[trigger] files[j]).id_hash;
            &&& config.hard_links ==> kept == files
            &&& !alike ==> kept == files
            &&& kept.len() == positions.len()
            &&& forall|a: int|
                0 <= a < kept.len() ==> 0 <= positions[a] < files.len() && #[trigger] kept[a]
                    == files[positions[a]]
            &&& forall|a: int, b: int|
                0 <= a < b < positions.len() ==> #[trigger] positions[a] < #[trigger] positions[b]
            &&& !config.hard_links && alike ==> forall|i: int| #[trigger]
                positions.contains(i) <==> 0 <= i < files.len() && has_new_id(ids, i)
        }),
{
    let hashes = id_hashes(files);
    let kept = pruned_links(config, files, ids);
    let alike = exists|i: int, j: int|
        0 <= i < j < files.len() && (#[trigger] files[i]).id_hash == (#[trigger] files[j]).id_hash;
    if alike {
        let (i, j) = choose|i: int, j: int|
            0 <= i < j < files.len() && (#[trigger] files[i]).id_hash == (
            #[trigger] files[j]).id_hash;
        assert(hashes[i] == hashes[j]);
        assert(!hashes.no_duplicates());
    } else {
        assert forall|i: int, j: int|
            0 <= i < hashes.len() && 0 <= j < hashes.len() && i != j implies hashes[i]
            != hashes[j] by {
            if i < j {
                assert(files[i].id_hash != files[j].id_hash);
            } else {
                assert(files[j].id_hash != files[i].id_hash);
            }
        }
    }
    if config.hard_links || !alike {
        Seq::new(files.len(), |i: int| i)
    } else {
        let keys = link_keys(ids, files.len());
        let positions = first_positions(keys);
        first_positions_are_first(keys);
        assert forall|i: int| #[trigger] positions.contains(i) <==> 0 <= i < files.len()
            && has_new_id(ids, i) by {
            if 0 <= i < files.len() {
                if has_new_id(ids, i) {
                    assert forall|j: int| 0 <= j < i implies keys[j] != keys[i] by {
                        if i < ids.len() {
                            assert(ids[i] is None || ids[j] != ids[i]);
                        }
                    }
                } else {
                    let j = choose|j: int| 0 <= j < i && #[trigger] ids[j] == ids[i];
                    assert(keys[j] == keys[i]);
                }
            }
        }
        positions
    }
}

/// Identifiers have to be read just where names do not count as copies and two files have equal
/// hashes of identifiers. Where they do not have to be, it does not matter what is read.
pub proof fn ids_are_needed_for_equal_hashes(
    config: Config,
    files: Seq<FileInfoNoLen>,
    ids: Seq<Option<FileId>>,
    other: Seq<Option<FileId>>,
)
    ensures
        needs_ids(config, files) <==> !config.hard_links && exists|i: int, j: int|
            0 <= i < j < files.len() && (#[trigger] files[i]).id_hash == (
            #[trigger] files[j]).id_hash,
        !needs_ids(config, files) ==> pruned_links(config, files, ids) == pruned_links(
            config,
            files,
            other,
        ),
{
    let hashes = id_hashes(files);
    if !hashes.no_duplicates() {
        let (i, j) = choose|i: int, j: int|
            0 <= i < hashes.len() && 0 <= j < hashes.len() && i != j && hashes[i] == hashes[j];
        if i < j {
            assert(files[i].id_hash == files[j].id_hash);
        } else {
            assert(files[j].id_hash == files[i].id_hash);
        }
    }
    if exists|i: int, j: int|
        0 <= i < j < files.len() && (#[trigger] files[i]).id_hash == (#[trigger] files[j]).id_hash {
        let (i, j) = choose|i: int, j: int|
            0 <= i < j < files.len() && (#[trigger] files[i]).id_hash == (
            #[trigger] files[j]).id_hash;
        assert(hashes[i] == hashes[j]);
    }
}

} // verus!

//! What the Blob service answers, as plain values.
use crate::text::{clone_opt, owned};
use vstd::prelude::*;

verus! {

/// One page of a container listing.
#[derive(Debug)]
pub struct ContainerListResponse {
    pub containers: Option<ContainerList>,
    pub next_marker: Option<String>,
}

#[derive(Debug)]
pub struct ContainerList {
    pub items: Vec<ContainerItem>,
}

#[derive(Debug)]
pub struct ContainerItem {
    pub name: String,
    pub properties: Option<ContainerProperties>,
}

#[derive(Debug)]
pub struct ContainerProperties {
    pub last_modified: Option<String>,
    pub etag: Option<String>,
}

/// One page of a blob listing.
#[derive(Debug)]
pub struct BlobListResponse {
    pub blobs: Option<BlobList>,
    pub next_marker: Option<String>,
}

/// Blobs and prefixes in the order in which the service interleaves them.
#[derive(Debug)]
pub struct BlobList {
    pub entries: Vec<BlobOrPrefix>,
}

#[derive(Debug)]
pub enum BlobOrPrefix {
    Blob(BlobItem),
    BlobPrefix(BlobPrefix),
}

#[derive(Debug)]
pub struct BlobPrefix {
    pub name: String,
}

/// A blob as a listing shows it.
#[derive(Debug)]
pub struct BlobItem {
    pub name: String,
    pub properties: Option<BlobProperties>,
}

#[derive(Debug)]
pub struct BlobProperties {
    pub last_modified: Option<String>,
    pub content_length: Option<u64>,
    pub content_type: Option<String>,
    pub content_md5: Option<String>,
    pub etag: Option<String>,
    pub blob_type: Option<String>,
    pub access_tier: Option<String>,
}

/// The code and the message of an error body.
#[derive(Debug)]
pub struct StorageError {
    pub code: String,
    pub message: String,
}

/// A blob as its own headers show it.
#[derive(Debug)]
pub struct BlobInfo {
    pub name: String,
    pub content_length: u64,
    pub content_type: String,
    pub last_modified: Option<String>,
    pub etag: Option<String>,
    pub content_md5: Option<String>,
}

pub struct BlockListEntry {
    pub id: String,
}

impl Clone for BlobProperties {
    fn clone(&self) -> (out: Self)
        ensures
            out == *self,
    {
        BlobProperties {
            last_modified: clone_opt(&self.last_modified),
            content_length: self.content_length,
            content_type: clone_opt(&self.content_type),
            content_md5: clone_opt(&self.content_md5),
            etag: clone_opt(&self.etag),
            blob_type: clone_opt(&self.blob_type),
            access_tier: clone_opt(&self.access_tier),
        }
    }
}

impl Clone for BlobItem {
    fn clone(&self) -> (out: Self)
        ensures
            out == *self,
    {
        let properties = match &self.properties {
            Some(p) => Some(p.clone()),
            None => None,
        };
        BlobItem { name: self.name.clone(), properties }
    }
}

impl Clone for BlobInfo {
    fn clone(&self) -> (out: Self)
        ensures
            out == *self,
    {
        BlobInfo {
            name: self.name.clone(),
            content_length: self.content_length,
            content_type: self.content_type.clone(),
            last_modified: clone_opt(&self.last_modified),
            etag: clone_opt(&self.etag),
            content_md5: clone_opt(&self.content_md5),
        }
    }
}

/// The size that a listing gives for a blob, 0 where it gives none.
pub open spec fn size_of(item: BlobItem) -> u64 {
    match item.properties {
        Some(p) => match p.content_length {
            Some(n) => n,
            None => 0,
        },
        None => 0,
    }
}

/// The size that a listing gives for a blob, 0 where it gives none.
pub fn item_size(item: &BlobItem) -> (size: u64)
    ensures
        size == size_of(*item),
{
    match &item.properties {
        Some(p) => match p.content_length {
            Some(n) => n,
            None => 0,
        },
        None => 0,
    }
}

/// The sizes of the blobs.
pub open spec fn sizes_of(items: Seq<BlobItem>) -> Seq<u64> {
    items.map_values(|b: BlobItem| size_of(b))
}

/// How a blob is uploaded.
pub struct UploadOptions {
    pub overwrite: bool,
    pub content_md5: Option<[u8; 16]>,
}

impl Default for UploadOptions {
    fn default() -> (out: Self)
        ensures
            out == (UploadOptions { overwrite: false, content_md5: None }),
    {
        UploadOptions { overwrite: false, content_md5: None }
    }
}

impl Clone for UploadOptions {
    fn clone(&self) -> (out: Self)
        ensures
            out == *self,
    {
        UploadOptions { overwrite: self.overwrite, content_md5: self.content_md5 }
    }
}

impl UploadOptions {
    /// An upload that replaces what is there.
    pub fn overwrite() -> (out: Self)
        ensures
            out == (UploadOptions { overwrite: true, content_md5: None }),
    {
        UploadOptions { overwrite: true, content_md5: None }
    }
}

/// The lines of a list of blocks.
pub open spec fn block_lines(blocks: Seq<BlockListEntry>) -> Seq<char>
    decreases blocks.len(),
{
    if blocks.len() == 0 {
        Seq::empty()
    } else {
        block_lines(blocks.drop_last()) + "  <Latest>"@ + blocks.last().id@ + "</Latest>\n"@
    }
}

/// The body that commits blocks, in order.
pub open spec fn block_list_xml(blocks: Seq<BlockListEntry>) -> Seq<char> {
    "<?xml version=\"1.0\" encoding=\"utf-8\"?>\n<BlockList>\n"@ + block_lines(blocks)
        + "</BlockList>"@
}

/// The body that commits blocks, in order.
pub fn build_block_list_xml(blocks: &[BlockListEntry]) -> (out: String)
    ensures
        out@ == block_list_xml(blocks@),
{
    let mut xml = owned("<?xml version=\"1.0\" encoding=\"utf-8\"?>\n<BlockList>\n");
    let ghost head = xml@;
    let mut i: usize = 0;
    assert(blocks@.take(0) =~= Seq::<BlockListEntry>::empty());
    assert(head + block_lines(blocks@.take(0)) =~= head);
    while i < blocks.len()
        invariant
            i <= blocks@.len(),
            xml@ == head + block_lines(blocks@.take(i as int)),
        decreases blocks@.len() - i,
    {
        assert(blocks@.take(i + 1).drop_last() =~= blocks@.take(i as int));
        let ghost before = block_lines(blocks@.take(i as int));
        xml.append("  <Latest>");
        xml.append(blocks[i].id.as_str());
        xml.append("</Latest>\n");
        assert(xml@ =~= head + (before + "  <Latest>"@ + blocks@[i as int].id@
            + "</Latest>\n"@));
        i += 1;
    }
    assert(blocks@.take(blocks@.len() as int) =~= blocks@);
    xml.append("</BlockList>");
    xml
}

/// The size of a blob is the length that the listing gives, 0 where it gives none.
pub proof fn law_size_is_the_listed_length(items: Seq<BlobItem>, i: int)
    requires
        0 <= i < items.len(),
    ensures
        sizes_of(items).len() == items.len(),
        items[i].properties matches Some(p) && p.content_length is Some ==> sizes_of(items)[i]
            == items[i].properties->0.content_length->0,
        items[i].properties is None ==> sizes_of(items)[i] == 0,
        items[i].properties matches Some(p) && p.content_length is None ==> sizes_of(items)[i]
            == 0,
{
}

/// A commit names its blocks in order: one block more adds its line behind the others, and
/// nothing else changes.
pub proof fn law_commit_names_its_blocks_in_order(
    blocks: Seq<BlockListEntry>,
    block: BlockListEntry,
    body: Seq<char>,
)
    requires
        block_list_xml(blocks) == body + "</BlockList>"@,
    ensures
        block_list_xml(blocks.push(block)) == body + "  <Latest>"@ + block.id@ + "</Latest>\n"@
            + "</BlockList>"@,
        block_list_xml(Seq::empty())
            == "<?xml version=\"1.0\" encoding=\"utf-8\"?>\n<BlockList>\n"@ + "</BlockList>"@,
{
    let head = "<?xml version=\"1.0\" encoding=\"utf-8\"?>\n<BlockList>\n"@;
    let end = "</BlockList>"@;
    let lines = block_lines(blocks);
    assert(blocks.push(block).drop_last() =~= blocks);
    let n = (head + lines).len() as int;
    assert((body + end).len() == (head + lines + end).len());
    assert(body.len() == n);
    assert(body =~= (body + end).take(n));
    assert(head + lines =~= (head + lines + end).take(n));
    assert(head + (lines + "  <Latest>"@ + block.id@ + "</Latest>\n"@) + end =~= body
        + "  <Latest>"@ + block.id@ + "</Latest>\n"@ + end);
    assert(head + block_lines(Seq::empty()) + end =~= head + end);
}

} // verus!

//! What a session asks of a tree: each change is followed by writing the dirty
//! pages to the table file.

use vstd::prelude::*;
use crate::error::StorageError;
use crate::value::Value;
use crate::value::KeyRow;
use crate::value::KeyRowView;
use crate::value::keyrows_view;
use crate::value::clone_values;
use crate::engine::Table;
use crate::engine::TableView;
use crate::engine::names_view;
use crate::engine::schema_ok;
use crate::codec::image;
use crate::pages::PageView;
use crate::store::lemma_same_tree;
use crate::btrees::BPlusTree;
use crate::btrees::find_entry;
use crate::btrees::lemma_path;
use crate::buffer_manager::lemma_flushed;

verus! {

impl BPlusTree {
    /// Writes every dirty page to the table file. The tree stays as it is, and
    /// afterwards the file holds every page of the pool with its keys and rows.
    pub fn flush(&mut self)
        requires
            old(self).wf(),
        ensures
            final(self).wf(),
            final(self)@ == old(self)@,
            final(self).buffer_pool@.durable(),
    {
        proof {
            lemma_flushed(self.buffer_pool@, self.buffer_pool@.frames.len() as int);
            crate::buffer_manager::lemma_flushed_file(
                self.buffer_pool@,
                self.buffer_pool@.frames.len() as int,
            );
        }
        self.buffer_pool.flush_all();
        proof {
            lemma_same_tree(self.buffer_pool@, old(self).buffer_pool@);
        }
    }
}

/// A new table, unless one of that name is there already.
pub fn create(
    file: &str,
    pk_index: u8,
    field_names: Vec<String>,
    field_types: Vec<u8>,
    exists: bool,
) -> (made: Result<Table, StorageError>)
    ensures
        match made {
            Ok(table) => !exists && schema_ok(names_view(field_names@), field_types@) && table@
                == TableView::blank(
                file@,
                pk_index,
                names_view(field_names@),
                field_types@,
            ).header_written().page_created(image(PageView::empty_leaf())) && table@.wf(),
            Err(e) => if exists {
                e == StorageError::TableExists
            } else {
                !schema_ok(names_view(field_names@), field_types@) && e == StorageError::BadSchema
            },
        },
{
    Table::new(file, pk_index, field_names, field_types, exists)
}

/// Inserts `kr` and writes the dirty pages out.
pub fn insert(kr: KeyRow, btree: &mut BPlusTree) -> (done: Result<bool, StorageError>)
    requires
        old(btree).wf(),
    ensures
        final(btree).wf(),
        final(btree).buffer_pool@.durable(),
        match done {
            Ok(yes) => yes && old(btree)@.inserted(kr@) == (final(btree)@, None::<StorageError>),
            Err(e) => old(btree)@.inserted(kr@) == (final(btree)@, Some(e)),
        },
{
    let done = btree.insert(kr);
    btree.flush();
    done
}

/// Deletes `key` and writes the dirty pages out. Says whether the key was
/// there.
pub fn delete(key: Value, btree: &mut BPlusTree) -> (done: Result<bool, StorageError>)
    requires
        old(btree).wf(),
    ensures
        final(btree).wf(),
        final(btree).buffer_pool@.durable(),
        match done {
            Ok(found) => found == old(btree)@.holds(key@) && old(btree)@.deleted(key@) == (
                final(btree)@,
                None::<StorageError>,
            ),
            Err(e) => old(btree)@.deleted(key@) == (final(btree)@, Some(e)),
        },
{
    let done = btree.delete(key);
    btree.flush();
    done
}

/// Replaces the row under the key of `kr` and writes the dirty pages out.
pub fn update(kr: KeyRow, btree: &mut BPlusTree) -> (done: Result<(), StorageError>)
    requires
        old(btree).wf(),
    ensures
        final(btree).wf(),
        final(btree).buffer_pool@.durable(),
        match done {
            Ok(()) => old(btree)@.updated(kr@) == (final(btree)@, None::<StorageError>),
            Err(e) => old(btree)@.updated(kr@) == (final(btree)@, Some(e)),
        },
{
    let done = btree.update(kr);
    btree.flush();
    done
}

/// The row stored under `key`: the first entry with the key in the leaf that
/// the key is routed to.
pub fn read(key: Value, btree: &mut BPlusTree) -> (found: Result<KeyRow, StorageError>)
    requires
        old(btree).wf(),
    ensures
        final(btree).wf(),
        final(btree)@ == old(btree)@,
        match found {
            Ok(kr) => old(btree)@.holds(key@) && kr@ == (KeyRowView {
                key: key@,
                row: old(btree)@.row_of(key@),
            }),
            Err(e) => !old(btree)@.holds(key@) && e == (if old(btree)@.path(key@) is None {
                StorageError::BrokenTree
            } else {
                StorageError::NotFound
            }),
        },
{
    let ghost tree = btree@;
    let (id, _) = match btree.search(&key) {
        Ok(place) => place,
        Err(e) => {
            return Err(e);
        },
    };
    proof {
        lemma_path(tree, key@, 0, tree.count as nat);
    }
    let (_, entries) = match btree.buffer_pool.read_node(id) {
        Ok(node) => node,
        Err(e) => {
            return Err(e);
        },
    };
    let at: usize = find_entry(&entries, &key);
    if at < entries.len() {
        assert(keyrows_view(entries@)[at as int] == entries[at as int]@);
        Ok(KeyRow { key, row: clone_values(&entries[at].row) })
    } else {
        Err(StorageError::NotFound)
    }
}

} // verus!

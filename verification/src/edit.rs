//! Changing single entries of a configuration file and leaving the rest of its
//! text as it is.

use crate::config::HueConfig;
use crate::text::{decimal, same_text};
use toml_edit::{DocumentMut, Item, TomlError, Value};
use vstd::prelude::*;

verus! {

/// A parsed TOML file.
#[verifier::external_type_specification]
#[verifier::external_body]
pub struct ExDocumentMut(DocumentMut);

/// Why a text is not TOML.
#[verifier::external_type_specification]
#[verifier::external_body]
pub struct ExTomlError(TomlError);

/// The document that a text holds, or why it is not TOML.
pub uninterp spec fn parsed(text: Seq<char>) -> Result<DocumentMut, TomlError>;

/// Whether the root of a document is a table, as that of every parsed one is.
pub uninterp spec fn is_rooted(doc: DocumentMut) -> bool;

/// The text that a document is written as.
pub uninterp spec fn written(doc: DocumentMut) -> Seq<char>;

/// For each entry of a document's list of tables, inline or not, the text
/// under a key, where the entry has one. There is no entry where the document
/// has no such list.
pub uninterp spec fn list_texts(doc: DocumentMut, list: Seq<char>, key: Seq<char>) -> Seq<
    Option<Seq<char>>,
>;

/// The texts in a document's table, inline or not, by key. There is none where
/// the document has no such table.
pub uninterp spec fn table_texts(doc: DocumentMut, table: Seq<char>) -> Map<Seq<char>, Seq<char>>;

/// Every value of a document that is no table and no list, by the way to it: the
/// keys and, in lists, the places of the entries, counted from 0. Each is as it
/// reads by itself.
pub uninterp spec fn values(doc: DocumentMut) -> Map<Seq<Seq<char>>, Seq<char>>;

/// Whether the root of a document is a table, and what it holds under a name, if
/// anything, is a table too, inline or not.
pub uninterp spec fn takes_keys(doc: DocumentMut, table: Seq<char>) -> bool;

/// A document in which a text has been put under a key of an entry of a list.
pub uninterp spec fn with_list_text(
    doc: DocumentMut,
    list: Seq<char>,
    index: int,
    key: Seq<char>,
    text: Seq<char>,
) -> DocumentMut;

/// A document in which a text has been put under a key of a table.
pub uninterp spec fn with_table_text(
    doc: DocumentMut,
    table: Seq<char>,
    key: Seq<char>,
    text: Seq<char>,
) -> DocumentMut;

/// A way leads through another, or ends where that does.
pub open spec fn leads_through(path: Seq<Seq<char>>, way: Seq<Seq<char>>) -> bool {
    way.len() <= path.len() && path.take(way.len() as int) == way
}

/// Of the values of two documents, the ones at the end of a way are the same, or
/// there is none in either.
pub open spec fn same_value(
    a: Map<Seq<Seq<char>>, Seq<char>>,
    b: Map<Seq<Seq<char>>, Seq<char>>,
    path: Seq<Seq<char>>,
) -> bool {
    &&& a.contains_key(path) == b.contains_key(path)
    &&& a.contains_key(path) ==> a[path] == b[path]
}

/// `DocumentMut::from_str` parses a text, by the text alone. The root of what
/// comes out is a table.
#[verifier::external_body]
fn parse_document(text: &str) -> (result: Result<DocumentMut, TomlError>)
    ensures
        result == parsed(text@),
        result matches Ok(doc) ==> is_rooted(doc),
{
    text.parse::<DocumentMut>()
}

/// `DocumentMut::to_string` writes a document, by the document alone. Where the
/// root is no table it would panic.
#[verifier::external_body]
fn write_document(doc: &DocumentMut) -> (text: String)
    requires
        is_rooted(*doc),
    ensures
        text@ == written(*doc),
{
    doc.to_string()
}

/// The text of an optional `String`.
pub open spec fn text_of(text: Option<String>) -> Option<Seq<char>> {
    match text {
        Some(text) => Some(text@),
        None => None,
    }
}

/// `Table::get` finds the list, and `ArrayOfTables::iter` or `Array::iter` its
/// entries; `Table::get` or `InlineTable::get` and `as_str` give the text under
/// the key. There are as many entries whatever the key.
#[verifier::external_body]
fn read_list(doc: &DocumentMut, list: &str, key: &str) -> (texts: Vec<Option<String>>)
    ensures
        list_texts(*doc, list@, key@) == texts@.map_values(|text: Option<String>| text_of(text)),
        forall|k: Seq<char>| #[trigger] list_texts(*doc, list@, k).len() == texts@.len(),
{
    let text_in_table = |item: &Item| item.as_str().map(String::from);
    let text_in_inline = |value: &Value| value.as_str().map(String::from);
    match doc.as_item().as_table().and_then(|root| root.get(list)) {
        Some(Item::ArrayOfTables(tables)) => {
            tables.iter().map(|table| table.get(key).and_then(text_in_table)).collect()
        },
        Some(Item::Value(Value::Array(array))) => array
            .iter()
            .map(|entry| entry.as_inline_table().and_then(|t| t.get(key)).and_then(text_in_inline))
            .collect(),
        _ => Vec::new(),
    }
}

/// An entry of a list has a text under some key, and so is a table.
pub open spec fn is_filled(doc: DocumentMut, list: Seq<char>, index: int) -> bool {
    exists|key: Seq<char>|
        0 <= index < (#[trigger] list_texts(doc, list, key)).len() && list_texts(
            doc,
            list,
            key,
        )[index] is Some
}

/// `ArrayOfTables::iter_mut` or `Array::iter_mut` finds an entry of a list, and
/// indexing a `Table` or `InlineTable::insert` puts a text under a key of it, in
/// place of what was there. What comes out depends on the document and the
/// arguments alone. No value elsewhere changes. Doing it again changes nothing,
/// and entries can be written in any order.
#[verifier::external_body]
fn write_list(doc: &mut DocumentMut, list: &str, index: usize, key: &str, text: &str)
    requires
        is_filled(*old(doc), list@, index as int),
    ensures
        *final(doc) == with_list_text(*old(doc), list@, index as int, key@, text@),
        is_rooted(*final(doc)),
        forall|l: Seq<char>, k: Seq<char>| #[trigger]
            list_texts(*final(doc), l, k) == (if l == list@ && k == key@ {
                list_texts(*old(doc), l, k).update(index as int, Some(text@))
            } else {
                list_texts(*old(doc), l, k)
            }),
        forall|t: Seq<char>| #[trigger]
            table_texts(*final(doc), t) == table_texts(*old(doc), t),
        forall|path: Seq<Seq<char>>|
            !leads_through(path, seq![list@, decimal(index as nat), key@]) ==> #[trigger] same_value(
                values(*old(doc)),
                values(*final(doc)),
                path,
            ),
        with_list_text(*final(doc), list@, index as int, key@, text@) == *final(doc),
        forall|j: int|
            j != index && is_filled(*old(doc), list@, j) ==> #[trigger] with_list_text(
                *final(doc),
                list@,
                j,
                key@,
                text@,
            ) == with_list_text(
                with_list_text(*old(doc), list@, j, key@, text@),
                list@,
                index as int,
                key@,
                text@,
            ),
{
    match doc.as_item_mut().as_table_mut().and_then(|root| root.get_mut(list)) {
        Some(Item::ArrayOfTables(tables)) => {
            if let Some(table) = tables.iter_mut().nth(index) {
                table[key] = toml_edit::value(text);
            }
        },
        Some(Item::Value(Value::Array(array))) => {
            let entry = array.iter_mut().nth(index).and_then(Value::as_inline_table_mut);
            entry.and_then(|table| table.insert(key, Value::from(text)));
        },
        _ => {},
    }
}

/// `Table::get` and `Item::is_table_like` tell whether what stands under a
/// name, if anything, is a table.
#[verifier::external_body]
fn accepts_keys(doc: &DocumentMut, table: &str) -> (accepts: bool)
    ensures
        accepts == takes_keys(*doc, table@),
{
    let root = doc.as_item().as_table();
    root.is_some_and(|root| root.get(table).map_or(true, Item::is_table_like))
}

/// Indexing a document and then an `Item` puts a text under a key of a table,
/// in place of what was there, and makes the table where there is none. What
/// comes out depends on the document and the arguments alone. No value elsewhere
/// changes. On anything but a table it would panic.
#[verifier::external_body]
fn write_table(doc: &mut DocumentMut, table: &str, key: &str, text: &str)
    requires
        takes_keys(*old(doc), table@),
    ensures
        *final(doc) == with_table_text(*old(doc), table@, key@, text@),
        is_rooted(*final(doc)),
        forall|path: Seq<Seq<char>>|
            !leads_through(path, seq![table@, key@]) ==> #[trigger] same_value(
                values(*old(doc)),
                values(*final(doc)),
                path,
            ),
        forall|t: Seq<char>| #[trigger]
            table_texts(*final(doc), t) == (if t == table@ {
                table_texts(*old(doc), t).insert(key@, text@)
            } else {
                table_texts(*old(doc), t)
            }),
        forall|l: Seq<char>, k: Seq<char>| #[trigger]
            list_texts(*final(doc), l, k) == list_texts(*old(doc), l, k),
{
    doc[table][key] = toml_edit::value(text);
}

/// Why a file cannot be changed.
#[derive(Debug)]
pub enum EditError {
    /// It is not TOML.
    Parse(TomlError),
    /// None of its targets is a Hue bridge.
    NoHueTarget,
    /// Its MIDI section is something other than a table.
    NoMidiTable,
}

/// The entry at `i` of a list of types is a Hue bridge.
pub open spec fn is_hue(types: Seq<Option<Seq<char>>>, i: int) -> bool {
    0 <= i < types.len() && types[i] == Some("hue"@)
}

/// The texts under a key of the targets, with that of each Hue bridge replaced.
pub open spec fn new_texts(
    types: Seq<Option<Seq<char>>>,
    texts: Seq<Option<Seq<char>>>,
    text: Seq<char>,
) -> Seq<Option<Seq<char>>> {
    Seq::new(
        texts.len(),
        |i: int| if is_hue(types, i) {
            Some(text)
        } else {
            texts[i]
        },
    )
}

/// The texts in the lists and tables of two documents are the same, but perhaps
/// for those under one key in one list.
pub open spec fn same_texts_but(
    a: DocumentMut,
    b: DocumentMut,
    list: Seq<char>,
    key: Seq<char>,
) -> bool {
    &&& forall|l: Seq<char>, k: Seq<char>|
        l != list || k != key ==> #[trigger] list_texts(a, l, k) == list_texts(b, l, k)
    &&& forall|t: Seq<char>| #[trigger] table_texts(a, t) == table_texts(b, t)
}

/// The texts under a key of a document's targets.
pub open spec fn target_texts(doc: DocumentMut, key: Seq<char>) -> Seq<Option<Seq<char>>> {
    list_texts(doc, "targets"@, key)
}

/// The types of a document's targets.
pub open spec fn target_types(doc: DocumentMut) -> Seq<Option<Seq<char>>> {
    target_texts(doc, "type"@)
}

/// One of a document's targets is a Hue bridge.
pub open spec fn has_hue(doc: DocumentMut) -> bool {
    exists|i: int| #[trigger] is_hue(target_types(doc), i)
}

/// A way leads through a key of a Hue bridge among the targets.
pub open spec fn is_hue_path(
    types: Seq<Option<Seq<char>>>,
    key: Seq<char>,
    path: Seq<Seq<char>>,
) -> bool {
    exists|i: int| #[trigger]
        is_hue(types, i) && leads_through(path, seq!["targets"@, decimal(i as nat), key])
}

/// A document with a text written under a key of each Hue bridge among its first
/// `count` targets, and no more done to it.
pub open spec fn with_first_hue_texts(
    doc: DocumentMut,
    types: Seq<Option<Seq<char>>>,
    key: Seq<char>,
    text: Seq<char>,
    count: nat,
) -> DocumentMut
    decreases count,
{
    if count == 0 {
        doc
    } else {
        let before = with_first_hue_texts(doc, types, key, text, (count - 1) as nat);
        if is_hue(types, count - 1) {
            with_list_text(before, "targets"@, count - 1, key, text)
        } else {
            before
        }
    }
}

/// A document with a text written under a key of each Hue bridge among its
/// targets, and no more done to it.
pub open spec fn with_hue_text(doc: DocumentMut, key: Seq<char>, text: Seq<char>) -> DocumentMut {
    with_first_hue_texts(doc, target_types(doc), key, text, target_types(doc).len())
}

/// The second document holds what the first does, but for a key of each Hue
/// bridge, under which it has the given text.
pub open spec fn has_new_hue_text(
    before: DocumentMut,
    after: DocumentMut,
    key: Seq<char>,
    text: Seq<char>,
) -> bool {
    &&& target_texts(after, key) == new_texts(
        target_types(before),
        target_texts(before, key),
        text,
    )
    &&& same_texts_but(before, after, "targets"@, key)
    &&& forall|path: Seq<Seq<char>>|
        !is_hue_path(target_types(before), key, path) ==> #[trigger] same_value(
            values(before),
            values(after),
            path,
        )
}

/// Where writing to any Hue bridge changes nothing, writing to all does not.
proof fn lemma_nothing_to_write(
    doc: DocumentMut,
    types: Seq<Option<Seq<char>>>,
    key: Seq<char>,
    text: Seq<char>,
    count: nat,
)
    requires
        forall|j: int|
            #![trigger is_hue(types, j)]
            0 <= j < count && is_hue(types, j) ==> with_list_text(doc, "targets"@, j, key, text)
                == doc,
    ensures
        with_first_hue_texts(doc, types, key, text, count) == doc,
    decreases count,
{
    if count > 0 {
        lemma_nothing_to_write(doc, types, key, text, (count - 1) as nat);
    }
}

/// Writes a text under a key of every Hue bridge among the targets, and tells
/// whether there is one. Doing it again changes nothing.
pub fn set_hue_text(doc: &mut DocumentMut, key: &str, text: &str) -> (updated: bool)
    requires
        key@ != "type"@,
    ensures
        updated == has_hue(*old(doc)),
        *final(doc) == with_hue_text(*old(doc), key@, text@),
        has_new_hue_text(*old(doc), *final(doc), key@, text@),
        with_hue_text(*final(doc), key@, text@) == *final(doc),
        is_rooted(*old(doc)) ==> is_rooted(*final(doc)),
{
    let ghost first = *doc;
    let ghost kinds = target_types(first);
    let ghost texts = target_texts(first, key@);
    let types: Vec<Option<String>> = read_list(doc, "targets", "type");
    assert(kinds.len() == types@.len() && texts.len() == types@.len());
    let mut updated: bool = false;
    let mut i: usize = 0;
    while i < types.len()
        invariant
            i <= types@.len(),
            key@ != "type"@,
            kinds == types@.map_values(|text: Option<String>| text_of(text)),
            kinds == target_types(first),
            texts == target_texts(first, key@),
            texts.len() == types@.len(),
            updated <==> exists|j: int| 0 <= j < i && #[trigger] is_hue(kinds, j),
            *doc == with_first_hue_texts(first, kinds, key@, text@, i as nat),
            is_rooted(first) ==> is_rooted(*doc),
            forall|j: int|
                #![trigger is_hue(kinds, j)]
                0 <= j < i && is_hue(kinds, j) ==> with_list_text(
                    *doc,
                    "targets"@,
                    j,
                    key@,
                    text@,
                ) == *doc,
            target_texts(*doc, key@).len() == types@.len(),
            forall|j: int|
                0 <= j < types@.len() ==> #[trigger] target_texts(*doc, key@)[j] == (if j < i
                    && is_hue(kinds, j) {
                    Some(text@)
                } else {
                    texts[j]
                }),
            same_texts_but(first, *doc, "targets"@, key@),
            forall|path: Seq<Seq<char>>|
                !is_hue_path(kinds, key@, path) ==> #[trigger] same_value(
                    values(first),
                    values(*doc),
                    path,
                ),
        decreases types@.len() - i,
    {
        let ghost now = *doc;
        assert(kinds[i as int] == text_of(types@[i as int]));
        assert(list_texts(first, "targets"@, "type"@) == list_texts(now, "targets"@, "type"@));
        if let Some(kind) = &types[i] {
            if same_text(kind.as_str(), "hue") {
                assert(is_hue(kinds, i as int));
                assert(is_filled(now, "targets"@, i as int));
                write_list(doc, "targets", i, key, text);
                updated = true;
                assert(target_texts(*doc, key@) == target_texts(now, key@).update(
                    i as int,
                    Some(text@),
                ));
                assert forall|j: int|
                    #![trigger is_hue(kinds, j)]
                    0 <= j < i + 1 && is_hue(kinds, j) implies with_list_text(
                    *doc,
                    "targets"@,
                    j,
                    key@,
                    text@,
                ) == *doc by {
                    if j != i {
                        assert(list_texts(now, "targets"@, "type"@)[j] is Some);
                        assert(is_filled(now, "targets"@, j));
                    }
                }
                assert forall|path: Seq<Seq<char>>|
                    !is_hue_path(kinds, key@, path) implies #[trigger] same_value(
                    values(first),
                    values(*doc),
                    path,
                ) by {
                    assert(same_value(values(first), values(now), path));
                    assert(!leads_through(
                        path,
                        seq!["targets"@, decimal(i as nat), key@],
                    ));
                    assert(same_value(values(now), values(*doc), path));
                }
            }
        }
        i += 1;
    }
    proof {
        assert(target_texts(*doc, key@) =~= new_texts(kinds, texts, text@));
        assert(list_texts(first, "targets"@, "type"@) == list_texts(*doc, "targets"@, "type"@));
        lemma_nothing_to_write(*doc, kinds, key@, text@, kinds.len());
    }
    updated
}

/// Gives every Hue bridge among the targets a new address, and tells whether
/// there is one. Doing it again changes nothing.
pub fn redirect_hue(doc: &mut DocumentMut, new_ip: &str) -> (updated: bool)
    ensures
        updated == has_hue(*old(doc)),
        *final(doc) == with_hue_text(*old(doc), "bridge_ip"@, new_ip@),
        has_new_hue_text(*old(doc), *final(doc), "bridge_ip"@, new_ip@),
        with_hue_text(*final(doc), "bridge_ip"@, new_ip@) == *final(doc),
        is_rooted(*old(doc)) ==> is_rooted(*final(doc)),
{
    proof {
        reveal_strlit("type");
        reveal_strlit("bridge_ip");
        assert("type"@.len() != "bridge_ip"@.len());
    }
    set_hue_text(doc, "bridge_ip", new_ip)
}

/// The text of a configuration file with the address of each Hue bridge
/// replaced.
pub fn update_hue_ip(contents: &str, new_ip: &str) -> (result: Result<String, EditError>)
    ensures
        match parsed(contents@) {
            Ok(doc) => match result {
                Ok(text) => {
                    let edited = with_hue_text(doc, "bridge_ip"@, new_ip@);
                    &&& has_hue(doc)
                    &&& text@ == written(edited)
                    &&& has_new_hue_text(doc, edited, "bridge_ip"@, new_ip@)
                    &&& with_hue_text(edited, "bridge_ip"@, new_ip@) == edited
                },
                Err(error) => !has_hue(doc) && error == EditError::NoHueTarget,
            },
            Err(cause) => result == Err::<String, EditError>(EditError::Parse(cause)),
        },
{
    let mut doc: DocumentMut = match parse_document(contents) {
        Ok(doc) => doc,
        Err(error) => {
            return Err(EditError::Parse(error));
        },
    };
    if !redirect_hue(&mut doc, new_ip) {
        return Err(EditError::NoHueTarget);
    }
    Ok(write_document(&doc))
}

/// A document with all that a link with a bridge gives written to each Hue
/// bridge among its targets, and no more done to it.
pub open spec fn with_hue_link(doc: DocumentMut, hue: HueConfig) -> DocumentMut {
    let with_ip = with_hue_text(doc, "bridge_ip"@, hue.bridge_ip@);
    let with_id = with_hue_text(with_ip, "bridge_id"@, hue.bridge_id@);
    let with_user = with_hue_text(with_id, "username"@, hue.username@);
    let with_key = with_hue_text(with_user, "client_key"@, hue.client_key@);
    with_hue_text(with_key, "area_id"@, hue.area_id@)
}

/// A key is one of those that a link with a bridge gives.
pub open spec fn is_link_key(key: Seq<char>) -> bool {
    ||| key == "bridge_ip"@
    ||| key == "bridge_id"@
    ||| key == "username"@
    ||| key == "client_key"@
    ||| key == "area_id"@
}

/// What a link with a bridge gives for a key.
pub open spec fn link_text(hue: HueConfig, key: Seq<char>) -> Seq<char> {
    if key == "bridge_ip"@ {
        hue.bridge_ip@
    } else if key == "bridge_id"@ {
        hue.bridge_id@
    } else if key == "username"@ {
        hue.username@
    } else if key == "client_key"@ {
        hue.client_key@
    } else {
        hue.area_id@
    }
}

/// The second document holds what the first does, but for what a link with a
/// bridge gives, which stands with each Hue bridge.
pub open spec fn has_new_link(before: DocumentMut, after: DocumentMut, hue: HueConfig) -> bool {
    &&& forall|key: Seq<char>|
        is_link_key(key) ==> #[trigger] target_texts(after, key) == new_texts(
            target_types(before),
            target_texts(before, key),
            link_text(hue, key),
        )
    &&& forall|l: Seq<char>, k: Seq<char>|
        l != "targets"@ || !is_link_key(k) ==> #[trigger] list_texts(after, l, k) == list_texts(
            before,
            l,
            k,
        )
    &&& forall|t: Seq<char>| #[trigger] table_texts(after, t) == table_texts(before, t)
    &&& forall|path: Seq<Seq<char>>|
        (forall|key: Seq<char>|
            is_link_key(key) ==> !#[trigger] is_hue_path(target_types(before), key, path))
            ==> #[trigger] same_value(values(before), values(after), path)
}

/// The keys that a link with a bridge gives differ, and none of them is the type.
proof fn lemma_link_keys_differ()
    ensures
        "bridge_ip"@ != "bridge_id"@,
        "bridge_ip"@.len() == 9,
        "bridge_id"@.len() == 9,
        "username"@.len() == 8,
        "client_key"@.len() == 10,
        "area_id"@.len() == 7,
        "type"@.len() == 4,
{
    reveal_strlit("bridge_ip");
    reveal_strlit("bridge_id");
    reveal_strlit("username");
    reveal_strlit("client_key");
    reveal_strlit("area_id");
    reveal_strlit("type");
    assert("bridge_ip"@[8] != "bridge_id"@[8]);
}

/// Writes all that a link with a bridge gives to every Hue bridge among the
/// targets, and tells whether there is one.
pub fn relink_hue(doc: &mut DocumentMut, hue: &HueConfig) -> (updated: bool)
    ensures
        updated == has_hue(*old(doc)),
        *final(doc) == with_hue_link(*old(doc), *hue),
        has_new_link(*old(doc), *final(doc), *hue),
        is_rooted(*old(doc)) ==> is_rooted(*final(doc)),
{
    proof {
        lemma_link_keys_differ();
    }
    let ghost first = *doc;
    let updated: bool = set_hue_text(doc, "bridge_ip", hue.bridge_ip.as_str());
    let ghost with_ip = *doc;
    set_hue_text(doc, "bridge_id", hue.bridge_id.as_str());
    let ghost with_id = *doc;
    set_hue_text(doc, "username", hue.username.as_str());
    let ghost with_user = *doc;
    set_hue_text(doc, "client_key", hue.client_key.as_str());
    let ghost with_key = *doc;
    set_hue_text(doc, "area_id", hue.area_id.as_str());
    proof {
        assert forall|l: Seq<char>, k: Seq<char>|
            l != "targets"@ || !is_link_key(k) implies #[trigger] list_texts(*doc, l, k)
            == list_texts(first, l, k) by {
            assert(list_texts(first, l, k) == list_texts(with_ip, l, k));
            assert(list_texts(with_ip, l, k) == list_texts(with_id, l, k));
            assert(list_texts(with_id, l, k) == list_texts(with_user, l, k));
            assert(list_texts(with_user, l, k) == list_texts(with_key, l, k));
            assert(list_texts(with_key, l, k) == list_texts(*doc, l, k));
        }
        let kinds = target_types(first);
        assert(target_types(with_ip) == kinds) by {
            assert(list_texts(first, "targets"@, "type"@) == list_texts(
                with_ip,
                "targets"@,
                "type"@,
            ));
        }
        assert(target_types(with_id) == kinds) by {
            assert(list_texts(with_ip, "targets"@, "type"@) == list_texts(
                with_id,
                "targets"@,
                "type"@,
            ));
        }
        assert(target_types(with_user) == kinds) by {
            assert(list_texts(with_id, "targets"@, "type"@) == list_texts(
                with_user,
                "targets"@,
                "type"@,
            ));
        }
        assert(target_types(with_key) == kinds) by {
            assert(list_texts(with_user, "targets"@, "type"@) == list_texts(
                with_key,
                "targets"@,
                "type"@,
            ));
        }
        assert forall|key: Seq<char>| is_link_key(key) implies #[trigger] target_texts(*doc, key)
            == new_texts(kinds, target_texts(first, key), link_text(*hue, key)) by {
            let l = "targets"@;
            assert(key != "bridge_ip"@ ==> list_texts(first, l, key) == list_texts(
                with_ip,
                l,
                key,
            ));
            assert(key != "bridge_id"@ ==> list_texts(with_ip, l, key) == list_texts(
                with_id,
                l,
                key,
            ));
            assert(key != "username"@ ==> list_texts(with_id, l, key) == list_texts(
                with_user,
                l,
                key,
            ));
            assert(key != "client_key"@ ==> list_texts(with_user, l, key) == list_texts(
                with_key,
                l,
                key,
            ));
            assert(key != "area_id"@ ==> list_texts(with_key, l, key) == list_texts(
                *doc,
                l,
                key,
            ));
        }
        assert forall|t: Seq<char>| #[trigger] table_texts(*doc, t) == table_texts(first, t) by {
            assert(table_texts(first, t) == table_texts(with_ip, t));
            assert(table_texts(with_ip, t) == table_texts(with_id, t));
            assert(table_texts(with_id, t) == table_texts(with_user, t));
            assert(table_texts(with_user, t) == table_texts(with_key, t));
            assert(table_texts(with_key, t) == table_texts(*doc, t));
        }
        assert forall|path: Seq<Seq<char>>|
            (forall|key: Seq<char>|
                is_link_key(key) ==> !#[trigger] is_hue_path(
                    kinds,
                    key,
                    path,
                )) implies #[trigger] same_value(values(first), values(*doc), path) by {
            assert(!is_hue_path(kinds, "bridge_ip"@, path));
            assert(!is_hue_path(kinds, "bridge_id"@, path));
            assert(!is_hue_path(kinds, "username"@, path));
            assert(!is_hue_path(kinds, "client_key"@, path));
            assert(!is_hue_path(kinds, "area_id"@, path));
            assert(same_value(values(first), values(with_ip), path));
            assert(same_value(values(with_ip), values(with_id), path));
            assert(same_value(values(with_id), values(with_user), path));
            assert(same_value(values(with_user), values(with_key), path));
            assert(same_value(values(with_key), values(*doc), path));
        }
    }
    updated
}

/// The text of a configuration file with a new link to each Hue bridge.
pub fn update_hue_link(contents: &str, hue: &HueConfig) -> (result: Result<String, EditError>)
    ensures
        match parsed(contents@) {
            Ok(doc) => match result {
                Ok(text) => {
                    let edited = with_hue_link(doc, *hue);
                    &&& has_hue(doc)
                    &&& text@ == written(edited)
                    &&& has_new_link(doc, edited, *hue)
                },
                Err(error) => !has_hue(doc) && error == EditError::NoHueTarget,
            },
            Err(cause) => result == Err::<String, EditError>(EditError::Parse(cause)),
        },
{
    let mut doc: DocumentMut = match parse_document(contents) {
        Ok(doc) => doc,
        Err(error) => {
            return Err(EditError::Parse(error));
        },
    };
    if !relink_hue(&mut doc, hue) {
        return Err(EditError::NoHueTarget);
    }
    Ok(write_document(&doc))
}

/// A document with the name of the MIDI device written anew, and no more done
/// to it.
pub open spec fn renamed(doc: DocumentMut, device: Seq<char>) -> DocumentMut {
    with_table_text(doc, "midi"@, "device_name"@, device)
}

/// The second document holds what the first does, but for the name of the MIDI
/// device, which is the given one.
pub open spec fn has_new_device(
    before: DocumentMut,
    after: DocumentMut,
    device: Seq<char>,
) -> bool {
    &&& table_texts(after, "midi"@) == table_texts(before, "midi"@).insert(
        "device_name"@,
        device,
    )
    &&& forall|t: Seq<char>|
        t != "midi"@ ==> #[trigger] table_texts(after, t) == table_texts(before, t)
    &&& forall|l: Seq<char>, k: Seq<char>| #[trigger]
        list_texts(after, l, k) == list_texts(before, l, k)
    &&& forall|path: Seq<Seq<char>>|
        !leads_through(path, seq!["midi"@, "device_name"@]) ==> #[trigger] same_value(
            values(before),
            values(after),
            path,
        )
}

/// Names another MIDI device.
pub fn set_midi_device(doc: &mut DocumentMut, new_device: &str)
    requires
        takes_keys(*old(doc), "midi"@),
    ensures
        *final(doc) == renamed(*old(doc), new_device@),
        has_new_device(*old(doc), *final(doc), new_device@),
        is_rooted(*final(doc)),
{
    write_table(doc, "midi", "device_name", new_device);
}

/// The text of a configuration file with the name of the MIDI device replaced.
pub fn update_midi_device(contents: &str, new_device: &str) -> (result: Result<String, EditError>)
    ensures
        match parsed(contents@) {
            Ok(doc) => match result {
                Ok(text) => {
                    let edited = renamed(doc, new_device@);
                    &&& takes_keys(doc, "midi"@)
                    &&& text@ == written(edited)
                    &&& has_new_device(doc, edited, new_device@)
                },
                Err(error) => !takes_keys(doc, "midi"@) && error == EditError::NoMidiTable,
            },
            Err(cause) => result == Err::<String, EditError>(EditError::Parse(cause)),
        },
{
    let mut doc: DocumentMut = match parse_document(contents) {
        Ok(doc) => doc,
        Err(error) => {
            return Err(EditError::Parse(error));
        },
    };
    if !accepts_keys(&doc, "midi") {
        return Err(EditError::NoMidiTable);
    }
    set_midi_device(&mut doc, new_device);
    Ok(write_document(&doc))
}

/// A new address reaches every Hue bridge among the targets and nothing else: the
/// texts under `bridge_ip` of all other targets stay, and so do all under another
/// key, whatever the target.
pub proof fn law_new_addresses_reach_hue_bridges_alone(
    before: DocumentMut,
    after: DocumentMut,
    new_ip: Seq<char>,
    i: int,
)
    requires
        has_new_hue_text(before, after, "bridge_ip"@, new_ip),
        list_texts(before, "targets"@, "type"@).len() == list_texts(
            before,
            "targets"@,
            "bridge_ip"@,
        ).len(),
        0 <= i < list_texts(before, "targets"@, "type"@).len(),
    ensures
        ({
            let kind = list_texts(before, "targets"@, "type"@)[i];
            let (old_ip, ip) = (
                list_texts(before, "targets"@, "bridge_ip"@)[i],
                list_texts(after, "targets"@, "bridge_ip"@)[i],
            );
            &&& kind == Some("hue"@) ==> ip == Some(new_ip)
            &&& kind != Some("hue"@) ==> ip == old_ip
        }),
        forall|key: Seq<char>|
            key != "bridge_ip"@ ==> #[trigger] list_texts(after, "targets"@, key) == list_texts(
                before,
                "targets"@,
                key,
            ),
{
    let l = "targets"@;
    assert(target_texts(after, "bridge_ip"@)[i] == new_texts(
        target_types(before),
        target_texts(before, "bridge_ip"@),
        new_ip,
    )[i]);
    assert forall|key: Seq<char>| key != "bridge_ip"@ implies #[trigger] list_texts(after, l, key)
        == list_texts(before, l, key) by {
        assert(list_texts(before, l, key) == list_texts(after, l, key));
    }
}

/// A new link puts each thing that it gives under its own key of every Hue bridge,
/// and leaves every other target and every other key.
pub proof fn law_new_links_are_written_key_by_key(
    before: DocumentMut,
    after: DocumentMut,
    hue: HueConfig,
    i: int,
)
    requires
        has_new_link(before, after, hue),
        0 <= i < list_texts(before, "targets"@, "type"@).len(),
        list_texts(before, "targets"@, "type"@)[i] == Some("hue"@),
        forall|key: Seq<char>| #[trigger]
            list_texts(before, "targets"@, key).len() == list_texts(
                before,
                "targets"@,
                "type"@,
            ).len(),
    ensures
        list_texts(after, "targets"@, "bridge_ip"@)[i] == Some(hue.bridge_ip@),
        list_texts(after, "targets"@, "bridge_id"@)[i] == Some(hue.bridge_id@),
        list_texts(after, "targets"@, "username"@)[i] == Some(hue.username@),
        list_texts(after, "targets"@, "client_key"@)[i] == Some(hue.client_key@),
        list_texts(after, "targets"@, "area_id"@)[i] == Some(hue.area_id@),
        list_texts(after, "targets"@, "type"@) == list_texts(before, "targets"@, "type"@),
{
    lemma_link_keys_differ();
    assert(is_hue(target_types(before), i));
    assert(list_texts(before, "targets"@, "bridge_ip"@).len() > i);
    assert(list_texts(before, "targets"@, "bridge_id"@).len() > i);
    assert(list_texts(before, "targets"@, "username"@).len() > i);
    assert(list_texts(before, "targets"@, "client_key"@).len() > i);
    assert(list_texts(before, "targets"@, "area_id"@).len() > i);
    assert(target_texts(after, "bridge_ip"@)[i] == Some(hue.bridge_ip@));
    assert(target_texts(after, "bridge_id"@)[i] == Some(hue.bridge_id@));
    assert(target_texts(after, "username"@)[i] == Some(hue.username@));
    assert(target_texts(after, "client_key"@)[i] == Some(hue.client_key@));
    assert(target_texts(after, "area_id"@)[i] == Some(hue.area_id@));
}

/// A new device is named under `device_name` of the MIDI section, and every other
/// text of that section and of any other stays.
pub proof fn law_new_devices_are_named_alone(
    before: DocumentMut,
    after: DocumentMut,
    device: Seq<char>,
    table: Seq<char>,
    key: Seq<char>,
)
    requires
        has_new_device(before, after, device),
    ensures
        table_texts(after, "midi"@).contains_key("device_name"@),
        table_texts(after, "midi"@)["device_name"@] == device,
        table != "midi"@ || key != "device_name"@ ==> {
            &&& table_texts(after, table).contains_key(key) == table_texts(
                before,
                table,
            ).contains_key(key)
            &&& table_texts(after, table).contains_key(key) ==> table_texts(after, table)[key]
                == table_texts(before, table)[key]
        },
{
    if table != "midi"@ {
        assert(table_texts(after, table) == table_texts(before, table));
    }
}

/// A document has a Hue target exactly where one of its targets has the type
/// `hue`.
pub proof fn law_hue_targets_are_told_by_their_type(doc: DocumentMut)
    ensures
        has_hue(doc) <==> list_texts(doc, "targets"@, "type"@).contains(Some("hue"@)),
{
    let types = list_texts(doc, "targets"@, "type"@);
    if has_hue(doc) {
        let i = choose|i: int| #[trigger] is_hue(target_types(doc), i);
        assert(types[i] == Some("hue"@));
    }
    if types.contains(Some("hue"@)) {
        let i = choose|i: int| 0 <= i < types.len() && types[i] == Some("hue"@);
        assert(is_hue(target_types(doc), i));
    }
}

} // verus!

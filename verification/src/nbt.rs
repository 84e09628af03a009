use vstd::prelude::*;
use crate::chunk::{
    Chunk, ChunkRecord, ChunkSection, SectionRecord, chunk_record, lemma_whole_by_record,
    record_whole, section_record,
};
use crate::region::accept_loaded;

verus! {

/// A tree of tags, as chunks are stored in: numbers, text, bytes, lists of
/// tags, and compounds of named tags.
#[derive(Debug)]
pub enum NbtValue {
    Byte(i8),
    Int(i32),
    String(String),
    ByteArray(Vec<u8>),
    List(Vec<NbtValue>),
    Compound(Vec<(String, NbtValue)>),
}

/// What a tree of tags holds.
pub enum Tag {
    Byte(i8),
    Int(i32),
    String(Seq<char>),
    ByteArray(Seq<u8>),
    List(Seq<Tag>),
    Compound(Seq<(Seq<char>, Tag)>),
}

impl NbtValue {
    /// What this tree holds.
    pub open spec fn tag(&self) -> Tag
        decreases self,
    {
        match self {
            NbtValue::Byte(b) => Tag::Byte(*b),
            NbtValue::Int(i) => Tag::Int(*i),
            NbtValue::String(s) => Tag::String(s@),
            NbtValue::ByteArray(a) => Tag::ByteArray(a@),
            NbtValue::List(items) => Tag::List(
                Seq::new(
                    items@.len(),
                    |i: int|
                        if 0 <= i < items@.len() {
                            items@[i].tag()
                        } else {
                            Tag::Byte(0)
                        },
                ),
            ),
            NbtValue::Compound(entries) => Tag::Compound(
                Seq::new(
                    entries@.len(),
                    |i: int|
                        if 0 <= i < entries@.len() {
                            (entries@[i].0@, entries@[i].1.tag())
                        } else {
                            (Seq::empty(), Tag::Byte(0))
                        },
                ),
            ),
        }
    }
}

/// What the items of a list hold.
pub open spec fn tags_of(items: Seq<NbtValue>) -> Seq<Tag> {
    Seq::new(items.len(), |i: int| items[i].tag())
}

/// What the entries of a compound hold.
pub open spec fn entries_of(entries: Seq<(String, NbtValue)>) -> Seq<(Seq<char>, Tag)> {
    Seq::new(entries.len(), |i: int| (entries[i].0@, entries[i].1.tag()))
}

/// A list holds what its items hold, and a compound what its entries hold.
pub proof fn lemma_tag_of(value: NbtValue)
    ensures
        value matches NbtValue::List(items) ==> value.tag() == Tag::List(tags_of(items@)),
        value matches NbtValue::Compound(entries) ==> value.tag() == Tag::Compound(
            entries_of(entries@),
        ),
{
    match value {
        NbtValue::List(items) => {
            assert(value.tag()->List_0 =~= tags_of(items@));
        },
        NbtValue::Compound(entries) => {
            assert(value.tag()->Compound_0 =~= entries_of(entries@));
        },
        _ => {},
    }
}

/// What a section is stored as: its height index under `y`, the names of
/// its palette under `palette`, its cell indices under `blocks`.
pub open spec fn section_tag(section: ChunkSection) -> Tag {
    Tag::Compound(
        seq![
            ("y"@, Tag::Byte(section.y)),
            (
                "palette"@,
                Tag::List(
                    Seq::new(section.palette@.len(), |i: int| Tag::String(section.palette@[i]@)),
                ),
            ),
            ("blocks"@, Tag::ByteArray(section.blocks@)),
        ],
    )
}

/// What a chunk is stored as: its position under `x` and `z`, its sections
/// in order under `sections`.
pub open spec fn chunk_tag(chunk: Chunk) -> Tag {
    Tag::Compound(
        seq![
            ("x"@, Tag::Int(chunk.x)),
            ("z"@, Tag::Int(chunk.z)),
            (
                "sections"@,
                Tag::List(Seq::new(chunk.sections@.len(), |i: int| section_tag(chunk.sections@[i]))),
            ),
        ],
    )
}

/// The tag under the first entry named `key`.
pub open spec fn field(entries: Seq<(Seq<char>, Tag)>, key: Seq<char>) -> Option<Tag>
    decreases entries.len(),
{
    if entries.len() == 0 {
        None
    } else if entries[0].0 == key {
        Some(entries[0].1)
    } else {
        field(entries.skip(1), key)
    }
}

/// The texts of a list of text tags; nothing where another tag is among
/// them.
pub open spec fn texts_of(items: Seq<Tag>) -> Option<Seq<Seq<char>>> {
    if forall|i: int| 0 <= i < items.len() ==> (#[trigger] items[i]) is String {
        Some(Seq::new(items.len(), |i: int| items[i]->String_0))
    } else {
        None
    }
}

/// The section that a tag stores; nothing where the tag is no compound
/// with a byte `y`, a list of texts `palette` and bytes `blocks`.
pub open spec fn section_of_tag(tag: Tag) -> Option<SectionRecord> {
    match tag {
        Tag::Compound(entries) => match (
            field(entries, "y"@),
            field(entries, "palette"@),
            field(entries, "blocks"@),
        ) {
            (Some(Tag::Byte(y)), Some(Tag::List(items)), Some(Tag::ByteArray(blocks))) => match texts_of(
                items,
            ) {
                Some(names) => Some(SectionRecord { y, blocks, names }),
                None => None,
            },
            _ => None,
        },
        _ => None,
    }
}

/// The sections that a list of tags stores; nothing where one of the tags
/// stores no section.
pub open spec fn sections_of_tags(items: Seq<Tag>) -> Option<Seq<SectionRecord>> {
    if forall|i: int| 0 <= i < items.len() ==> section_of_tag(#[trigger] items[i]) is Some {
        Some(Seq::new(items.len(), |i: int| section_of_tag(items[i])->0))
    } else {
        None
    }
}

/// The chunk that a tag stores; nothing where the tag is no compound with
/// whole numbers `x` and `z` and a list of sections `sections`.
pub open spec fn chunk_of_tag(tag: Tag) -> Option<ChunkRecord> {
    match tag {
        Tag::Compound(entries) => match (
            field(entries, "x"@),
            field(entries, "z"@),
            field(entries, "sections"@),
        ) {
            (Some(Tag::Int(x)), Some(Tag::Int(z)), Some(Tag::List(items))) => match sections_of_tags(
                items,
            ) {
                Some(sections) => Some(ChunkRecord { x, z, sections }),
                None => None,
            },
            _ => None,
        },
        _ => None,
    }
}

/// The names of the three entries of a stored section and of a stored chunk
/// differ from each other.
pub proof fn lemma_keys_differ()
    ensures
        "y"@ != "palette"@,
        "y"@ != "blocks"@,
        "palette"@ != "blocks"@,
        "x"@ != "z"@,
        "x"@ != "sections"@,
        "z"@ != "sections"@,
{
    reveal_strlit("y");
    reveal_strlit("palette");
    reveal_strlit("blocks");
    reveal_strlit("x");
    reveal_strlit("z");
    reveal_strlit("sections");
    assert("y"@.len() == 1);
    assert("palette"@.len() == 7);
    assert("blocks"@.len() == 6);
    assert("x"@.len() == 1);
    assert("z"@.len() == 1);
    assert("sections"@.len() == 8);
    assert("x"@[0] == 'x');
    assert("z"@[0] == 'z');
}

/// The first three entries of a compound are found under their names where
/// these differ.
pub proof fn lemma_field_of_three(a: (Seq<char>, Tag), b: (Seq<char>, Tag), c: (Seq<char>, Tag))
    requires
        a.0 != b.0,
        a.0 != c.0,
        b.0 != c.0,
    ensures
        field(seq![a, b, c], a.0) == Some(a.1),
        field(seq![a, b, c], b.0) == Some(b.1),
        field(seq![a, b, c], c.0) == Some(c.1),
{
    let all = seq![a, b, c];
    let two = all.skip(1);
    let one = two.skip(1);
    assert(two[0] == b);
    assert(one[0] == c);
    assert(field(one, c.0) == Some(c.1));
    assert(field(two, b.0) == Some(b.1));
    assert(field(two, c.0) == field(one, c.0));
    assert(field(all, b.0) == field(two, b.0));
    assert(field(all, c.0) == field(two, c.0));
}

/// A stored section is read back as what the section holds.
pub proof fn lemma_section_round_trip(section: ChunkSection)
    ensures
        section_of_tag(section_tag(section)) == Some(section_record(section)),
{
    lemma_keys_differ();
    let names = Seq::new(section.palette@.len(), |i: int| Tag::String(section.palette@[i]@));
    lemma_field_of_three(
        ("y"@, Tag::Byte(section.y)),
        ("palette"@, Tag::List(names)),
        ("blocks"@, Tag::ByteArray(section.blocks@)),
    );
    assert(texts_of(names) is Some);
    assert(texts_of(names)->0 =~= section.names());
}

/// Saving and loading keeps a chunk: the tag that a chunk is stored as is
/// read back as what the chunk holds, position, sections, palettes and
/// cells.
pub proof fn lemma_chunk_round_trip(chunk: Chunk)
    ensures
        chunk_of_tag(chunk_tag(chunk)) == Some(chunk_record(chunk)),
{
    lemma_keys_differ();
    let items = Seq::new(chunk.sections@.len(), |i: int| section_tag(chunk.sections@[i]));
    lemma_field_of_three(
        ("x"@, Tag::Int(chunk.x)),
        ("z"@, Tag::Int(chunk.z)),
        ("sections"@, Tag::List(items)),
    );
    assert forall|i: int| 0 <= i < items.len() implies section_of_tag(#[trigger] items[i])
        == Some(section_record(chunk.sections@[i])) by {
        lemma_section_round_trip(chunk.sections@[i]);
    }
    assert(sections_of_tags(items) is Some);
    assert(sections_of_tags(items)->0 =~= chunk_record(chunk).sections);
}

/// What a tree that may be missing holds.
pub open spec fn tag_of_option(value: Option<NbtValue>) -> Option<Tag> {
    match value {
        Some(v) => Some(v.tag()),
        None => None,
    }
}

/// A copy of `bytes`.
fn copy_bytes(bytes: &Vec<u8>) -> (copy: Vec<u8>)
    ensures
        copy@ == bytes@,
{
    let mut copy: Vec<u8> = Vec::new();
    let mut i: usize = 0;
    while i < bytes.len()
        invariant
            i <= bytes@.len(),
            copy@ == bytes@.subrange(0, i as int),
        decreases bytes@.len() - i,
    {
        copy.push(bytes[i]);
        proof {
            assert(copy@ =~= bytes@.subrange(0, i as int + 1));
        }
        i += 1;
    }
    proof {
        assert(copy@ =~= bytes@);
    }
    copy
}

/// The tree that `section` is stored as.
fn section_to_nbt(section: &ChunkSection) -> (value: NbtValue)
    ensures
        value.tag() == section_tag(*section),
{
    let mut names: Vec<NbtValue> = Vec::new();
    let mut i: usize = 0;
    while i < section.palette.len()
        invariant
            i <= section.palette@.len(),
            names@.len() == i,
            forall|k: int| 0 <= k < i ==> (#[trigger] names@[k]).tag() == Tag::String(section.palette@[k]@),
        decreases section.palette@.len() - i,
    {
        names.push(NbtValue::String(section.palette[i].clone()));
        i += 1;
    }
    let ghost name_tags = tags_of(names@);
    let palette = NbtValue::List(names);
    let blocks = NbtValue::ByteArray(copy_bytes(&section.blocks));
    proof {
        lemma_tag_of(palette);
        assert(name_tags =~= Seq::new(
            section.palette@.len(),
            |k: int| Tag::String(section.palette@[k]@),
        ));
    }
    let mut entries: Vec<(String, NbtValue)> = Vec::new();
    entries.push(("y".to_owned(), NbtValue::Byte(section.y)));
    entries.push(("palette".to_owned(), palette));
    entries.push(("blocks".to_owned(), blocks));
    let value = NbtValue::Compound(entries);
    proof {
        lemma_tag_of(value);
        assert(value.tag()->Compound_0 =~= section_tag(*section)->Compound_0);
    }
    value
}

/// The tree that `chunk` is stored as: its position and, for each section
/// in order, the height index, the names of the palette and the cell
/// indices.
pub fn chunk_to_nbt(chunk: &Chunk) -> (value: NbtValue)
    ensures
        value.tag() == chunk_tag(*chunk),
{
    let mut items: Vec<NbtValue> = Vec::new();
    let mut i: usize = 0;
    while i < chunk.sections.len()
        invariant
            i <= chunk.sections@.len(),
            items@.len() == i,
            forall|k: int| 0 <= k < i ==> (#[trigger] items@[k]).tag() == section_tag(chunk.sections@[k]),
        decreases chunk.sections@.len() - i,
    {
        items.push(section_to_nbt(&chunk.sections[i]));
        i += 1;
    }
    let ghost item_tags = tags_of(items@);
    let sections = NbtValue::List(items);
    proof {
        lemma_tag_of(sections);
        assert(item_tags =~= Seq::new(
            chunk.sections@.len(),
            |k: int| section_tag(chunk.sections@[k]),
        ));
    }
    let mut entries: Vec<(String, NbtValue)> = Vec::new();
    entries.push(("x".to_owned(), NbtValue::Int(chunk.x)));
    entries.push(("z".to_owned(), NbtValue::Int(chunk.z)));
    entries.push(("sections".to_owned(), sections));
    let value = NbtValue::Compound(entries);
    proof {
        lemma_tag_of(value);
        assert(value.tag()->Compound_0 =~= chunk_tag(*chunk)->Compound_0);
    }
    value
}

/// The trees under the first entries named `first`, `second` and `third`,
/// three different names.
fn take_fields(entries: Vec<(String, NbtValue)>, first: &str, second: &str, third: &str) -> (r: (
    Option<NbtValue>,
    Option<NbtValue>,
    Option<NbtValue>,
))
    requires
        first@ != second@,
        first@ != third@,
        second@ != third@,
    ensures
        tag_of_option(r.0) == field(entries_of(entries@), first@),
        tag_of_option(r.1) == field(entries_of(entries@), second@),
        tag_of_option(r.2) == field(entries_of(entries@), third@),
{
    let ghost all = entries_of(entries@);
    let ghost whole = entries@;
    let key1: String = first.to_owned();
    let key2: String = second.to_owned();
    let key3: String = third.to_owned();
    let mut rest = entries;
    let mut slot1: Option<NbtValue> = None;
    let mut slot2: Option<NbtValue> = None;
    let mut slot3: Option<NbtValue> = None;
    proof {
        assert(all.skip(all.len() as int).len() == 0);
    }
    while rest.len() > 0
        invariant
            rest@.len() <= whole.len(),
            rest@ == whole.take(rest@.len() as int),
            all == entries_of(whole),
            key1@ == first@,
            key2@ == second@,
            key3@ == third@,
            first@ != second@,
            first@ != third@,
            second@ != third@,
            tag_of_option(slot1) == field(all.skip(rest@.len() as int), first@),
            tag_of_option(slot2) == field(all.skip(rest@.len() as int), second@),
            tag_of_option(slot3) == field(all.skip(rest@.len() as int), third@),
        decreases rest@.len(),
    {
        let ghost n = rest@.len() as int;
        let (key, value) = rest.pop().unwrap();
        proof {
            assert(rest@ =~= whole.take(n - 1));
            assert((key, value) == whole[n - 1]);
            assert(all[n - 1] == (key@, value.tag()));
            let here = all.skip(n - 1);
            assert(here[0] == all[n - 1]);
            assert(here.skip(1) =~= all.skip(n));
        }
        if key == key1 {
            slot1 = Some(value);
        } else if key == key2 {
            slot2 = Some(value);
        } else if key == key3 {
            slot3 = Some(value);
        }
    }
    proof {
        assert(all.skip(0) =~= all);
    }
    (slot1, slot2, slot3)
}

/// The texts of a list of text trees; nothing where another tree is among
/// them.
fn take_texts(items: Vec<NbtValue>) -> (r: Option<Vec<String>>)
    ensures
        r is Some == texts_of(tags_of(items@)) is Some,
        r is Some ==> r->0@.len() == items@.len() && forall|i: int|
            0 <= i < items@.len() ==> (#[trigger] r->0@[i])@ == texts_of(tags_of(items@))->0[i],
{
    let ghost whole = items@;
    let ghost tags = tags_of(items@);
    let mut rest = items;
    let mut reversed: Vec<String> = Vec::new();
    while rest.len() > 0
        invariant
            rest@.len() <= whole.len(),
            rest@ == whole.take(rest@.len() as int),
            whole == items@,
            tags == tags_of(whole),
            reversed@.len() == whole.len() - rest@.len(),
            forall|i: int| rest@.len() <= i < whole.len() ==> (#[trigger] tags[i]) is String,
            forall|i: int|
                rest@.len() <= i < whole.len() ==> (#[trigger] reversed@[whole.len() - 1 - i])@
                    == tags[i]->String_0,
        decreases rest@.len(),
    {
        let ghost n = rest@.len() as int;
        let item = rest.pop().unwrap();
        proof {
            assert(rest@ =~= whole.take(n - 1));
            assert(item == whole[n - 1]);
            assert(tags[n - 1] == item.tag());
        }
        match item {
            NbtValue::String(text) => {
                let ghost before = reversed@;
                reversed.push(text);
                proof {
                    assert forall|i: int| n - 1 <= i < whole.len() implies (#[trigger] reversed@[whole.len()
                        - 1 - i])@ == tags[i]->String_0 by {
                        if i > n - 1 {
                            assert(reversed@[whole.len() - 1 - i] == before[whole.len() - 1 - i]);
                        }
                    }
                }
            },
            _ => {
                proof {
                    assert(!(tags[n - 1] is String));
                }
                return None;
            },
        }
    }
    let ghost turned = reversed@;
    let mut texts: Vec<String> = Vec::new();
    while reversed.len() > 0
        invariant
            reversed@.len() <= turned.len(),
            reversed@ == turned.take(reversed@.len() as int),
            texts@.len() == turned.len() - reversed@.len(),
            forall|i: int| 0 <= i < texts@.len() ==> (#[trigger] texts@[i]) == turned[turned.len() - 1 - i],
        decreases reversed@.len(),
    {
        let ghost n = reversed@.len() as int;
        let ghost before = texts@;
        let text = reversed.pop().unwrap();
        proof {
            assert(reversed@ =~= turned.take(n - 1));
            assert(text == turned[n - 1]);
        }
        texts.push(text);
        proof {
            assert forall|i: int| 0 <= i < texts@.len() implies (#[trigger] texts@[i])
                == turned[turned.len() - 1 - i] by {
                if i < before.len() {
                    assert(texts@[i] == before[i]);
                }
            }
        }
    }
    proof {
        assert(texts_of(tags) is Some);
        assert forall|i: int| 0 <= i < whole.len() implies (#[trigger] texts@[i])@ == texts_of(
            tags,
        )->0[i] by {
            assert(texts@[i] == turned[turned.len() - 1 - i]);
            assert(turned[whole.len() - 1 - i]@ == tags[i]->String_0);
        }
    }
    Some(texts)
}

/// The section that a tree stores.
fn nbt_to_section(value: NbtValue) -> (r: Option<ChunkSection>)
    ensures
        r is Some == section_of_tag(value.tag()) is Some,
        r is Some ==> section_record(r->0) == section_of_tag(value.tag())->0,
{
    proof {
        lemma_tag_of(value);
        lemma_keys_differ();
    }
    match value {
        NbtValue::Compound(entries) => {
            let (y, palette, blocks) = take_fields(entries, "y", "palette", "blocks");
            match (y, palette, blocks) {
                (
                    Some(NbtValue::Byte(y)),
                    Some(NbtValue::List(items)),
                    Some(NbtValue::ByteArray(blocks)),
                ) => {
                    proof {
                        lemma_tag_of(NbtValue::List(items));
                    }
                    match take_texts(items) {
                        Some(palette) => {
                            let section = ChunkSection { y, blocks, palette };
                            proof {
                                assert(section.names() =~= section_of_tag(value.tag())->0.names);
                            }
                            Some(section)
                        },
                        None => None,
                    }
                },
                _ => None,
            }
        },
        _ => None,
    }
}

/// The sections that a list of trees stores; nothing where one of the
/// trees stores no section.
fn take_sections(items: Vec<NbtValue>) -> (r: Option<Vec<ChunkSection>>)
    ensures
        r is Some == sections_of_tags(tags_of(items@)) is Some,
        r is Some ==> r->0@.len() == items@.len() && forall|i: int|
            0 <= i < items@.len() ==> section_record(#[trigger] r->0@[i]) == sections_of_tags(
                tags_of(items@),
            )->0[i],
{
    let ghost whole = items@;
    let ghost tags = tags_of(items@);
    let mut rest = items;
    let mut reversed: Vec<ChunkSection> = Vec::new();
    while rest.len() > 0
        invariant
            rest@.len() <= whole.len(),
            rest@ == whole.take(rest@.len() as int),
            whole == items@,
            tags == tags_of(whole),
            reversed@.len() == whole.len() - rest@.len(),
            forall|i: int|
                rest@.len() <= i < whole.len() ==> section_of_tag(#[trigger] tags[i]) is Some,
            forall|i: int|
                rest@.len() <= i < whole.len() ==> section_record(
                    #[trigger] reversed@[whole.len() - 1 - i],
                ) == section_of_tag(tags[i])->0,
        decreases rest@.len(),
    {
        let ghost n = rest@.len() as int;
        let item = rest.pop().unwrap();
        proof {
            assert(rest@ =~= whole.take(n - 1));
            assert(item == whole[n - 1]);
            assert(tags[n - 1] == item.tag());
        }
        match nbt_to_section(item) {
            Some(section) => {
                let ghost before = reversed@;
                reversed.push(section);
                proof {
                    assert forall|i: int| n - 1 <= i < whole.len() implies section_record(
                        #[trigger] reversed@[whole.len() - 1 - i],
                    ) == section_of_tag(tags[i])->0 by {
                        if i > n - 1 {
                            assert(reversed@[whole.len() - 1 - i] == before[whole.len() - 1 - i]);
                        }
                    }
                }
            },
            None => {
                proof {
                    assert(!(section_of_tag(tags[n - 1]) is Some));
                }
                return None;
            },
        }
    }
    let ghost turned = reversed@;
    let mut sections: Vec<ChunkSection> = Vec::new();
    while reversed.len() > 0
        invariant
            reversed@.len() <= turned.len(),
            reversed@ == turned.take(reversed@.len() as int),
            sections@.len() == turned.len() - reversed@.len(),
            forall|i: int|
                0 <= i < sections@.len() ==> (#[trigger] sections@[i]) == turned[turned.len() - 1 - i],
        decreases reversed@.len(),
    {
        let ghost n = reversed@.len() as int;
        let ghost before = sections@;
        let section = reversed.pop().unwrap();
        proof {
            assert(reversed@ =~= turned.take(n - 1));
            assert(section == turned[n - 1]);
        }
        sections.push(section);
        proof {
            assert forall|i: int| 0 <= i < sections@.len() implies (#[trigger] sections@[i])
                == turned[turned.len() - 1 - i] by {
                if i < before.len() {
                    assert(sections@[i] == before[i]);
                }
            }
        }
    }
    proof {
        assert(sections_of_tags(tags) is Some);
        assert forall|i: int| 0 <= i < whole.len() implies section_record(#[trigger] sections@[i])
            == sections_of_tags(tags)->0[i] by {
            assert(sections@[i] == turned[turned.len() - 1 - i]);
            assert(section_record(turned[whole.len() - 1 - i]) == section_of_tag(tags[i])->0);
        }
    }
    Some(sections)
}

/// The chunk that a tree stores; nothing where the tree is no stored
/// chunk.
pub fn nbt_to_chunk(nbt: NbtValue) -> (r: Option<Chunk>)
    ensures
        r is Some == chunk_of_tag(nbt.tag()) is Some,
        r is Some ==> chunk_record(r->0) == chunk_of_tag(nbt.tag())->0,
{
    proof {
        lemma_tag_of(nbt);
        lemma_keys_differ();
    }
    match nbt {
        NbtValue::Compound(entries) => {
            let (x, z, sections) = take_fields(entries, "x", "z", "sections");
            match (x, z, sections) {
                (Some(NbtValue::Int(x)), Some(NbtValue::Int(z)), Some(NbtValue::List(items))) => {
                    proof {
                        lemma_tag_of(NbtValue::List(items));
                    }
                    match take_sections(items) {
                        Some(sections) => {
                            let chunk = Chunk { x, z, sections };
                            proof {
                                assert(chunk_record(chunk).sections =~= chunk_of_tag(
                                    nbt.tag(),
                                )->0.sections);
                            }
                            Some(chunk)
                        },
                        None => None,
                    }
                },
                _ => None,
            }
        },
        _ => None,
    }
}

/// The chunk that a tree stores for chunk position `(x, z)`: the stored
/// chunk, where the tree stores a whole chunk at that position;
/// otherwise the empty chunk that says that nothing was found.
pub fn parse_nbt_to_chunk(x: i32, z: i32, nbt: NbtValue) -> (chunk: Chunk)
    ensures
        chunk.x == x,
        chunk.z == z,
        chunk.wf(),
        chunk.sections@.len() > 0 ==> chunk.is_whole() && chunk_of_tag(nbt.tag()) == Some(
            chunk_record(chunk),
        ),
        chunk.sections@.len() == 0 <==> !stores_chunk_at(nbt.tag(), x, z),
{
    let decoded = nbt_to_chunk(nbt);
    proof {
        if decoded is Some {
            lemma_whole_by_record(decoded->0);
        }
    }
    accept_loaded(x, z, decoded)
}

/// Whether a tag stores a whole chunk at chunk position `(x, z)`.
pub open spec fn stores_chunk_at(tag: Tag, x: i32, z: i32) -> bool {
    &&& chunk_of_tag(tag) is Some
    &&& chunk_of_tag(tag)->0.x == x
    &&& chunk_of_tag(tag)->0.z == z
    &&& record_whole(chunk_of_tag(tag)->0)
}

/// A whole chunk that is stored is found again at its position: the tree
/// that it is stored as stores a whole chunk there, and that chunk
/// holds what the stored one held.
pub proof fn lemma_stored_chunk_is_found(chunk: Chunk)
    requires
        chunk.is_whole(),
    ensures
        stores_chunk_at(chunk_tag(chunk), chunk.x, chunk.z),
        chunk_of_tag(chunk_tag(chunk)) == Some(chunk_record(chunk)),
{
    lemma_chunk_round_trip(chunk);
    lemma_whole_by_record(chunk);
}

} // verus!

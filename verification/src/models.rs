use vstd::prelude::*;

use crate::string_map::StringMap;

verus! {

/// A card as the collection pages show it: either one that the user owns
/// or one of the cards printed in a set.
pub struct Card {
    pub name: String,
    pub set_code: String,
    pub collector_number: String,
    pub scryfall_id: Option<String>,
    pub collected: Option<bool>,
    pub image: Option<String>,
}

/// Copies an optional string.
pub fn clone_opt_string(o: &Option<String>) -> (r: Option<String>)
    ensures
        r == *o,
{
    match o {
        Some(s) => Some(s.clone()),
        None => None,
    }
}

impl Clone for Card {
    fn clone(&self) -> (c: Self)
        ensures
            c == *self,
    {
        Card {
            name: self.name.clone(),
            set_code: self.set_code.clone(),
            collector_number: self.collector_number.clone(),
            scryfall_id: clone_opt_string(&self.scryfall_id),
            collected: self.collected,
            image: clone_opt_string(&self.image),
        }
    }
}

/// A row of a collection export: the columns the exporter asks for.
pub struct ArchidektCard {
    pub name: String,
    pub set_code: String,
    pub collector_number: String,
    pub scryfall_id: Option<String>,
}

/// A card of the card database, with its image links.
pub struct ScryfallCard {
    pub name: String,
    pub collector_number: String,
    pub set: String,
    pub id: String,
    pub image_uris: Option<StringMap>,
    pub card_faces: Option<Vec<ScryfallCardFace>>,
}

/// One face of a multi-faced card.
pub struct ScryfallCardFace {
    pub image_uris: Option<StringMap>,
}

/// One page of a card search of the card database.
pub struct ScryfallCardList {
    has_more: bool,
    next_page: Option<String>,
    data: Vec<ScryfallCard>,
}

impl ScryfallCardList {
    /// Whether the search has further pages.
    pub closed spec fn spec_has_more(&self) -> bool {
        self.has_more
    }

    /// The link to the next page, if any.
    pub closed spec fn spec_next_page(&self) -> Option<String> {
        self.next_page
    }

    /// The cards of this page.
    pub closed spec fn spec_data(&self) -> Seq<ScryfallCard> {
        self.data@
    }

    /// Builds a page from its three parts.
    pub fn new(has_more: bool, next_page: Option<String>, data: Vec<ScryfallCard>) -> (l: Self)
        ensures
            l.spec_has_more() == has_more,
            l.spec_next_page() == next_page,
            l.spec_data() == data@,
    {
        ScryfallCardList { has_more, next_page, data }
    }

    /// Whether the search has further pages.
    pub fn has_more(&self) -> (b: bool)
        ensures
            b == self.spec_has_more(),
    {
        self.has_more
    }

    /// The link to the next page, if any.
    pub fn next_page(&self) -> (n: &Option<String>)
        ensures
            *n == self.spec_next_page(),
    {
        &self.next_page
    }

    /// Splits the page into its three parts.
    pub fn into_parts(self) -> (r: (bool, Option<String>, Vec<ScryfallCard>))
        ensures
            r.0 == self.spec_has_more(),
            r.1 == self.spec_next_page(),
            r.2@ == self.spec_data(),
    {
        (self.has_more, self.next_page, self.data)
    }

    /// The cards of this page.
    pub fn data(&self) -> (d: &Vec<ScryfallCard>)
        ensures
            d@ == self.spec_data(),
    {
        &self.data
    }
}

/// A snapshot of the whole card database.
pub struct BulkData {
    pub updated_at: String,
    pub cards: Vec<ScryfallCard>,
}

/// A set as the card database lists it.
pub struct ScryfallSet {
    pub code: String,
    pub name: Option<String>,
    pub search_uri: Option<String>,
}

/// The list of all sets of the card database.
pub struct SetsResponse {
    pub data: Vec<ScryfallSet>,
}

/// The completion report of one set: all of its cards, marked as collected
/// or not, and the user's own cards of that set.
pub struct CardSet {
    pub code: String,
    pub name: Option<String>,
    pub cards: Vec<Card>,
    pub collected_cards: Vec<Card>,
    pub set_count: usize,
    pub collected_count: usize,
}

/// A set report as plain values.
pub struct CardSetView {
    pub code: Seq<char>,
    pub name: Option<String>,
    pub cards: Seq<Card>,
    pub collected_cards: Seq<Card>,
    pub set_count: nat,
    pub collected_count: nat,
}

impl View for CardSet {
    type V = CardSetView;

    open spec fn view(&self) -> CardSetView {
        CardSetView {
            code: self.code@,
            name: self.name,
            cards: self.cards@,
            collected_cards: self.collected_cards@,
            set_count: self.set_count as nat,
            collected_count: self.collected_count as nat,
        }
    }
}

/// The `png` link of an optional image-link table.
pub open spec fn png_link(uris: Option<StringMap>) -> Option<String> {
    match uris {
        Some(m) => if m@.contains_key("png"@) {
            Some(m@["png"@])
        } else {
            None
        },
        None => None,
    }
}

/// The image of a card: its own `png` link, or else the `png` link of its
/// first face.
pub open spec fn card_image(v: ScryfallCard) -> Option<String> {
    match png_link(v.image_uris) {
        Some(s) => Some(s),
        None => match v.card_faces {
            Some(faces) => if faces@.len() > 0 {
                png_link(faces@[0].image_uris)
            } else {
                None
            },
            None => None,
        },
    }
}

/// Looks up the `png` link of an optional image-link table.
fn png_of(uris: &Option<StringMap>) -> (r: Option<String>)
    ensures
        r == png_link(*uris),
{
    match uris {
        Some(m) => match m.get("png") {
            Some(s) => Some(s.clone()),
            None => None,
        },
        None => None,
    }
}

impl vstd::std_specs::convert::FromSpecImpl<ScryfallCard> for Card {
    open spec fn obeys_from_spec() -> bool {
        true
    }

    open spec fn from_spec(v: ScryfallCard) -> Card {
        card_from_scryfall(v)
    }
}

/// A database card as a card of a set: not collected, with its identifier
/// and its image.
pub open spec fn card_from_scryfall(v: ScryfallCard) -> Card {
    Card {
        name: v.name,
        set_code: v.set,
        collector_number: v.collector_number,
        scryfall_id: Some(v.id),
        collected: Some(false),
        image: card_image(v),
    }
}

impl From<ScryfallCard> for Card {
    fn from(value: ScryfallCard) -> (c: Card)
        ensures
            c.name == value.name,
            c.set_code == value.set,
            c.collector_number == value.collector_number,
            c.scryfall_id == Some(value.id),
            c.collected == Some(false),
            value.image_uris is Some && value.image_uris->0@.contains_key("png"@) ==> c.image
                == Some(value.image_uris->0@["png"@]),
            !(value.image_uris is Some && value.image_uris->0@.contains_key("png"@)) && (
            value.card_faces is Some && value.card_faces->0@.len() > 0) ==> (
            if value.card_faces->0@[0].image_uris is Some
                && value.card_faces->0@[0].image_uris->0@.contains_key("png"@) {
                c.image == Some(value.card_faces->0@[0].image_uris->0@["png"@])
            } else {
                c.image is None
            }),
            !(value.image_uris is Some && value.image_uris->0@.contains_key("png"@)) && !(
            value.card_faces is Some && value.card_faces->0@.len() > 0) ==> c.image is None,
    {
        let own = png_of(&value.image_uris);
        let image = match own {
            Some(s) => Some(s),
            None => match &value.card_faces {
                Some(faces) => if faces.len() > 0 {
                    png_of(&faces[0].image_uris)
                } else {
                    None
                },
                None => None,
            },
        };
        Card {
            name: value.name,
            set_code: value.set,
            collector_number: value.collector_number,
            scryfall_id: Some(value.id),
            collected: Some(false),
            image,
        }
    }
}

impl vstd::std_specs::convert::FromSpecImpl<ArchidektCard> for Card {
    open spec fn obeys_from_spec() -> bool {
        true
    }

    open spec fn from_spec(v: ArchidektCard) -> Card {
        card_from_export(v)
    }
}

/// An exported row as a card: collected, without an image.
pub open spec fn card_from_export(v: ArchidektCard) -> Card {
    Card {
        name: v.name,
        set_code: v.set_code,
        collector_number: v.collector_number,
        scryfall_id: v.scryfall_id,
        collected: Some(true),
        image: None,
    }
}

impl From<ArchidektCard> for Card {
    fn from(value: ArchidektCard) -> (c: Card)
        ensures
            c.name == value.name,
            c.set_code == value.set_code,
            c.collector_number == value.collector_number,
            c.scryfall_id == value.scryfall_id,
            c.collected == Some(true),
            c.image is None,
    {
        Card {
            name: value.name,
            set_code: value.set_code,
            collector_number: value.collector_number,
            scryfall_id: value.scryfall_id,
            collected: Some(true),
            image: None,
        }
    }
}

/// A database card becomes a card of its set, not yet collected, that keeps
/// its name, collector number and identifier, and shows its own `png` image
/// or, lacking one, the `png` image of its first face.
pub proof fn lemma_database_card(v: ScryfallCard)
    ensures
        card_from_scryfall(v).name == v.name,
        card_from_scryfall(v).set_code == v.set,
        card_from_scryfall(v).collector_number == v.collector_number,
        card_from_scryfall(v).scryfall_id == Some(v.id),
        card_from_scryfall(v).collected == Some(false),
        v.image_uris is Some && v.image_uris->0@.contains_key("png"@) ==> card_from_scryfall(
            v,
        ).image == Some(v.image_uris->0@["png"@]),
        !(v.image_uris is Some && v.image_uris->0@.contains_key("png"@)) && (v.card_faces is Some
            && v.card_faces->0@.len() > 0) ==> (if v.card_faces->0@[0].image_uris is Some
            && v.card_faces->0@[0].image_uris->0@.contains_key("png"@) {
            card_from_scryfall(v).image == Some(v.card_faces->0@[0].image_uris->0@["png"@])
        } else {
            card_from_scryfall(v).image is None
        }),
        !(v.image_uris is Some && v.image_uris->0@.contains_key("png"@)) && !(v.card_faces is Some
            && v.card_faces->0@.len() > 0) ==> card_from_scryfall(v).image is None,
{
}

/// An export row becomes a collected card, without an image, with the
/// row's name, edition code as set code, collector number and identifier.
pub proof fn lemma_export_card(v: ArchidektCard)
    ensures
        card_from_export(v).name == v.name,
        card_from_export(v).set_code == v.set_code,
        card_from_export(v).collector_number == v.collector_number,
        card_from_export(v).scryfall_id == v.scryfall_id,
        card_from_export(v).collected == Some(true),
        card_from_export(v).image is None,
{
}

} // verus!

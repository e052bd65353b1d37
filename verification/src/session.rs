//! The decisions of a viewing session: what kind of dataset a file holds, which layer
//! and which bands to show, and by which protocol the image reaches the terminal.

use crate::raster::BandTriplet;
use vstd::prelude::*;

verus! {

/// What a dataset holds, judged by its counts of bands, subdatasets and layers.
#[derive(Clone, Copy, Debug, PartialEq, Eq, Structural)]
pub enum DatasetKind {
    /// No band of its own, but subdatasets to choose from.
    Container,
    /// No band and no subdataset, but vector layers.
    Vector,
    /// One band or more.
    Raster,
    /// Nothing that can be shown.
    Empty,
}

/// The kind of a dataset. Subdatasets and layers matter only where there is no band.
pub open spec fn dataset_kind(bands: usize, subdatasets: usize, layers: usize) -> DatasetKind {
    if bands > 0 {
        DatasetKind::Raster
    } else if subdatasets > 0 {
        DatasetKind::Container
    } else if layers > 0 {
        DatasetKind::Vector
    } else {
        DatasetKind::Empty
    }
}

/// Judges what a dataset holds.
pub fn classify_dataset(bands: usize, subdatasets: usize, layers: usize) -> (kind: DatasetKind)
    ensures
        kind == dataset_kind(bands, subdatasets, layers),
{
    if bands > 0 {
        DatasetKind::Raster
    } else if subdatasets > 0 {
        DatasetKind::Container
    } else if layers > 0 {
        DatasetKind::Vector
    } else {
        DatasetKind::Empty
    }
}

/// How the layer to render is found.
#[derive(Clone, Copy, Debug, PartialEq, Eq, Structural)]
pub enum LayerChoice {
    /// Render the layer of this index.
    Render(usize),
    /// The requested index names no layer of the file.
    OutOfRange(usize),
    /// Let the user pick one of several layers.
    Ask,
    /// Several layers and nothing to pick by: list them instead of rendering.
    List,
}

/// The layer to render, for a file with at least one layer. A requested index is
/// taken if it names a layer. Without one, a single layer is rendered, and several
/// are offered to the user in an interactive session and listed otherwise.
pub open spec fn layer_choice(requested: Option<usize>, layers: usize, interactive: bool) -> LayerChoice {
    match requested {
        Some(index) => if index >= layers {
            LayerChoice::OutOfRange(index)
        } else {
            LayerChoice::Render(index)
        },
        None => if layers <= 1 {
            LayerChoice::Render(0)
        } else if interactive {
            LayerChoice::Ask
        } else {
            LayerChoice::List
        },
    }
}

/// Decides how the layer to render is found.
pub fn choose_layer(requested: Option<usize>, layers: usize, interactive: bool) -> (choice: LayerChoice)
    ensures
        choice == layer_choice(requested, layers, interactive),
{
    match requested {
        Some(index) => {
            if index >= layers {
                LayerChoice::OutOfRange(index)
            } else {
                LayerChoice::Render(index)
            }
        },
        None => {
            if layers <= 1 {
                LayerChoice::Render(0)
            } else if interactive {
                LayerChoice::Ask
            } else {
                LayerChoice::List
            }
        },
    }
}

/// What the user picked from the menu of band combinations.
#[derive(Clone, Copy, Debug, PartialEq, Eq, Structural)]
pub enum BandMenu {
    /// One of the fixed combinations.
    Preset(BandTriplet),
    /// A single band, still to be picked, shown in gray.
    Grayscale,
    /// Three bands, each still to be picked.
    Custom,
}

/// The meaning of entry `selection` of the menu of band combinations: true colour,
/// false colour, colour infrared, agriculture, single band, custom bands. A selection
/// beyond the menu means bands 1, 2 and 3.
pub open spec fn band_menu_entry(selection: usize) -> BandMenu {
    if selection == 0 {
        BandMenu::Preset(BandTriplet { red: 3, green: 2, blue: 1 })
    } else if selection == 1 {
        BandMenu::Preset(BandTriplet { red: 4, green: 3, blue: 2 })
    } else if selection == 2 {
        BandMenu::Preset(BandTriplet { red: 4, green: 2, blue: 1 })
    } else if selection == 3 {
        BandMenu::Preset(BandTriplet { red: 4, green: 3, blue: 1 })
    } else if selection == 4 {
        BandMenu::Grayscale
    } else if selection == 5 {
        BandMenu::Custom
    } else {
        BandMenu::Preset(BandTriplet { red: 1, green: 2, blue: 3 })
    }
}

/// Reads the user's pick from the menu of band combinations.
pub fn band_menu(selection: usize) -> (entry: BandMenu)
    ensures
        entry == band_menu_entry(selection),
{
    if selection == 0 {
        BandMenu::Preset(BandTriplet { red: 3, green: 2, blue: 1 })
    } else if selection == 1 {
        BandMenu::Preset(BandTriplet { red: 4, green: 3, blue: 2 })
    } else if selection == 2 {
        BandMenu::Preset(BandTriplet { red: 4, green: 2, blue: 1 })
    } else if selection == 3 {
        BandMenu::Preset(BandTriplet { red: 4, green: 3, blue: 1 })
    } else if selection == 4 {
        BandMenu::Grayscale
    } else if selection == 5 {
        BandMenu::Custom
    } else {
        BandMenu::Preset(BandTriplet { red: 1, green: 2, blue: 3 })
    }
}

/// A single band shown in gray: the band for red, green and blue alike.
pub fn gray_bands(band: usize) -> (bands: BandTriplet)
    ensures
        bands == (BandTriplet { red: band, green: band, blue: band }),
{
    BandTriplet { red: band, green: band, blue: band }
}

/// The entry at which the list of bands opens when the user picks the band for
/// channel `channel` (red 0, green 1, blue 2): the entry of that number, or the last
/// entry in a shorter list.
pub fn default_band_entry(channel: usize, band_count: usize) -> (entry: usize)
    ensures
        entry == if channel < band_count {
            channel as int
        } else if band_count > 0 {
            band_count - 1
        } else {
            0
        },
{
    if channel < band_count {
        channel
    } else if band_count > 0 {
        band_count - 1
    } else {
        0
    }
}

/// The way an image reaches the terminal.
#[derive(Clone, Copy, Debug, PartialEq, Eq, Structural)]
pub enum DisplayProtocol {
    /// Frames of the kitty graphics protocol, written directly.
    Kitty,
    /// The inline image protocol of iTerm.
    Iterm,
    /// Coloured half-block characters.
    Blocks,
    /// Whatever the terminal is found to support.
    Auto,
}

/// The name `kitty`.
pub open spec fn kitty_name() -> Seq<u8> {
    seq![0x6bu8, 0x69, 0x74, 0x74, 0x79]
}

/// The name `iterm`.
pub open spec fn iterm_name() -> Seq<u8> {
    seq![0x69u8, 0x74, 0x65, 0x72, 0x6d]
}

/// The name `blocks`.
pub open spec fn blocks_name() -> Seq<u8> {
    seq![0x62u8, 0x6c, 0x6f, 0x63, 0x6b, 0x73]
}

/// The protocol that a name stands for, if it stands for one. No name stands for the
/// automatic choice.
pub open spec fn protocol_named(name: Option<Seq<u8>>) -> Option<DisplayProtocol> {
    match name {
        None => Some(DisplayProtocol::Auto),
        Some(n) => if n == kitty_name() {
            Some(DisplayProtocol::Kitty)
        } else if n == iterm_name() {
            Some(DisplayProtocol::Iterm)
        } else if n == blocks_name() {
            Some(DisplayProtocol::Blocks)
        } else {
            None
        },
    }
}

/// The name as a sequence.
pub open spec fn name_view(name: Option<&[u8]>) -> Option<Seq<u8>> {
    match name {
        Some(n) => Some(n@),
        None => None,
    }
}

/// Whether two runs of bytes are equal.
fn same_bytes(a: &[u8], b: &[u8]) -> (same: bool)
    ensures
        same == (a@ == b@),
{
    if a.len() != b.len() {
        return false;
    }
    let mut i: usize = 0;
    while i < a.len()
        invariant
            i <= a.len(),
            a.len() == b.len(),
            forall|k: int| 0 <= k < i ==> a@[k] == b@[k],
        decreases a.len() - i,
    {
        if a[i] != b[i] {
            return false;
        }
        i += 1;
    }
    assert(a@ =~= b@);
    true
}

/// Finds the protocol that the user asked for by name. An unknown name gives `None`.
pub fn parse_protocol(name: Option<&[u8]>) -> (protocol: Option<DisplayProtocol>)
    ensures
        protocol == protocol_named(name_view(name)),
{
    match name {
        None => Some(DisplayProtocol::Auto),
        Some(n) => {
            let kitty: [u8; 5] = [0x6b, 0x69, 0x74, 0x74, 0x79];
            let iterm: [u8; 5] = [0x69, 0x74, 0x65, 0x72, 0x6d];
            let blocks: [u8; 6] = [0x62, 0x6c, 0x6f, 0x63, 0x6b, 0x73];
            assert(kitty@ =~= kitty_name());
            assert(iterm@ =~= iterm_name());
            assert(blocks@ =~= blocks_name());
            if same_bytes(n, kitty.as_slice()) {
                Some(DisplayProtocol::Kitty)
            } else if same_bytes(n, iterm.as_slice()) {
                Some(DisplayProtocol::Iterm)
            } else if same_bytes(n, blocks.as_slice()) {
                Some(DisplayProtocol::Blocks)
            } else {
                None
            }
        },
    }
}

/// Which protocols a general image viewer may try for a display protocol: first
/// whether it may use kitty's, then whether it may use iTerm's. With neither it
/// falls back to block characters.
pub fn viewer_protocols(protocol: DisplayProtocol) -> (allowed: (bool, bool))
    ensures
        allowed == match protocol {
            DisplayProtocol::Kitty => (true, false),
            DisplayProtocol::Iterm => (false, true),
            DisplayProtocol::Blocks => (false, false),
            DisplayProtocol::Auto => (true, true),
        },
{
    match protocol {
        DisplayProtocol::Kitty => (true, false),
        DisplayProtocol::Iterm => (false, true),
        DisplayProtocol::Blocks => (false, false),
        DisplayProtocol::Auto => (true, true),
    }
}

/// Whether a text ends with the given bytes.
pub open spec fn has_suffix(text: Seq<u8>, suffix: Seq<u8>) -> bool {
    text.len() >= suffix.len() && text.skip(text.len() - suffix.len()) == suffix
}

/// Whether the given bytes occur in a text at the position `at`.
pub open spec fn occurs_at(text: Seq<u8>, run: Seq<u8>, at: int) -> bool {
    0 <= at && at + run.len() <= text.len() && text.subrange(at, at + run.len()) == run
}

/// Whether the given bytes occur somewhere in a text.
pub open spec fn has_run(text: Seq<u8>, run: Seq<u8>) -> bool {
    exists|at: int| occurs_at(text, run, at)
}

/// The ending `.zip`.
pub open spec fn zip_ending() -> Seq<u8> {
    seq![0x2eu8, 0x7a, 0x69, 0x70]
}

/// The ending `.ZIP`.
pub open spec fn capital_zip_ending() -> Seq<u8> {
    seq![0x2eu8, 0x5a, 0x49, 0x50]
}

/// The mark `:/vsi` of a path into a virtual file system.
pub open spec fn virtual_mark() -> Seq<u8> {
    seq![0x3au8, 0x2f, 0x76, 0x73, 0x69]
}

/// The mark `:EPSG` of a path that names a coordinate system.
pub open spec fn epsg_mark() -> Seq<u8> {
    seq![0x3au8, 0x45, 0x50, 0x53, 0x47]
}

/// Tests whether the given bytes occur in a text at the position `at`.
fn matches_at(text: &[u8], run: &[u8], at: usize) -> (found: bool)
    requires
        at + run@.len() <= text@.len(),
    ensures
        found == occurs_at(text@, run@, at as int),
{
    let len = text.len();
    let mut k: usize = 0;
    while k < run.len()
        invariant
            k <= run@.len(),
            len == text@.len(),
            at + run@.len() <= text@.len(),
            forall|j: int| 0 <= j < k ==> text@[at + j] == run@[j],
        decreases run.len() - k,
    {
        if text[at + k] != run[k] {
            assert(text@.subrange(at as int, at + run@.len())[k as int] != run@[k as int]);
            return false;
        }
        k += 1;
    }
    assert(text@.subrange(at as int, at + run@.len()) =~= run@);
    true
}

/// Tests whether a text ends with the given bytes.
pub fn ends_with(text: &[u8], suffix: &[u8]) -> (found: bool)
    ensures
        found == has_suffix(text@, suffix@),
{
    if text.len() < suffix.len() {
        return false;
    }
    let at = text.len() - suffix.len();
    assert(text@.skip(at as int) =~= text@.subrange(at as int, at + suffix@.len()));
    matches_at(text, suffix, at)
}

/// Tests whether the given bytes occur somewhere in a text.
pub fn contains_run(text: &[u8], run: &[u8]) -> (found: bool)
    ensures
        found == has_run(text@, run@),
{
    if text.len() < run.len() {
        return false;
    }
    let last = text.len() - run.len();
    let mut at: usize = 0;
    while at < last
        invariant
            at <= last,
            last == text@.len() - run@.len(),
            forall|j: int| 0 <= j < at ==> !occurs_at(text@, run@, j),
        decreases last - at,
    {
        if matches_at(text, run, at) {
            return true;
        }
        at += 1;
    }
    matches_at(text, run, last)
}

/// Whether a path names a subdataset rather than a file: such a path leads into a
/// virtual file system or names a coordinate system.
pub fn is_subdataset_path(path: &[u8]) -> (yes: bool)
    ensures
        yes == (has_run(path@, virtual_mark()) || has_run(path@, epsg_mark())),
{
    let virtual_fs: [u8; 5] = [0x3a, 0x2f, 0x76, 0x73, 0x69];
    let epsg: [u8; 5] = [0x3a, 0x45, 0x50, 0x53, 0x47];
    assert(virtual_fs@ =~= virtual_mark());
    assert(epsg@ =~= epsg_mark());
    contains_run(path, virtual_fs.as_slice()) || contains_run(path, epsg.as_slice())
}

/// Whether a path names a zip archive, by its ending in small or in capital letters.
pub fn is_zip_path(path: &[u8]) -> (yes: bool)
    ensures
        yes == (has_suffix(path@, zip_ending()) || has_suffix(path@, capital_zip_ending())),
{
    let small: [u8; 4] = [0x2e, 0x7a, 0x69, 0x70];
    let capital: [u8; 4] = [0x2e, 0x5a, 0x49, 0x50];
    assert(small@ =~= zip_ending());
    assert(capital@ =~= capital_zip_ending());
    ends_with(path, small.as_slice()) || ends_with(path, capital.as_slice())
}

} // verus!

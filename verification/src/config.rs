//! Configuration data model: which display/capture/sensor backends run and
//! the named set of output devices, each tagged with its kind, its
//! addressing, and whether screen-content luminance participates in its
//! state key.
//!
//! Parsing the on-disk configuration file is I/O and stays outside the
//! library; these are the plain values the rest of the system consumes.
//! Named collections that the original configuration format keys by device
//! name are held as vectors of `(name, value)` pairs; lookups return the
//! first match.

use vstd::prelude::*;

verus! {

/// The display-server backend.
#[derive(Clone, Copy, Debug)]
pub enum Display {
    Wayland,
}

/// The screen-capture backend.
#[derive(Clone, Copy, Debug)]
pub enum Capturer {
    Wlroots,
    Disabled,
}

/// The capture post-processing backend that reduces a frame to a luminance.
#[derive(Clone, Copy, Debug)]
pub enum Processor {
    Vulkan,
}

/// How screen-content luminance is produced.
#[derive(Clone, Copy, Debug)]
pub struct ScreenContents {
    pub capturer: Capturer,
    pub processor: Processor,
}

/// The ambient-light source: a hardware sensor path, disabled, or a static
/// hour-of-day to lux table.
#[derive(Clone, Debug)]
pub enum Als {
    Iio { path: String },
    Disabled,
    Time { hour_to_lux: Vec<(String, u32)> },
}

/// A panel-backlight output device.
#[derive(Clone, Debug)]
pub struct BacklightOutput {
    /// The sysfs directory of the backlight device.
    pub path: String,
    /// Whether screen content participates in this device's state key.
    pub use_contents: bool,
}

/// An external monitor driven over its control channel, by display index.
#[derive(Clone, Copy, Debug)]
pub struct DdcUtilOutput {
    pub display: u8,
    pub use_contents: bool,
}

/// One configured output device of either kind.
#[derive(Clone, Debug)]
pub enum Output {
    Backlight(BacklightOutput),
    DdcUtil(DdcUtilOutput),
}

/// Output devices as the configuration file groups them, by kind.
#[derive(Clone, Debug, Default)]
pub struct OutputByType {
    pub backlight: Vec<(String, BacklightOutput)>,
    pub ddcutil: Vec<(String, DdcUtilOutput)>,
}

/// A keyboard backlight device.
#[derive(Clone, Debug)]
pub struct Keyboard {
    pub path: String,
}

/// The configured keyboard backlights, by name.
#[derive(Clone, Debug, Default)]
pub struct Keyboards {
    pub backlight: Vec<(String, Keyboard)>,
}

/// The full configuration.
#[derive(Clone, Debug)]
pub struct Config {
    pub display: Display,
    pub screen_contents: ScreenContents,
    pub als: Als,
    pub output_by_type: OutputByType,
    pub keyboard: Keyboards,
    /// The flattened, named output set the daemon iterates over.
    pub output: Vec<(String, Output)>,
}

/// Whether an output device's state key includes screen content.
pub open spec fn use_contents_of(o: Output) -> bool {
    match o {
        Output::Backlight(b) => b.use_contents,
        Output::DdcUtil(d) => d.use_contents,
    }
}

/// First-match lookup of a device name in the output list.
pub open spec fn lookup_use_contents(outputs: Seq<(String, Output)>, name: Seq<char>) -> Option<
    bool,
>
    decreases outputs.len(),
{
    if outputs.len() == 0 {
        None
    } else if outputs[0].0@ == name {
        Some(use_contents_of(outputs[0].1))
    } else {
        lookup_use_contents(outputs.skip(1), name)
    }
}

/// Relies on str's equality: two string slices compare equal exactly when
/// they consist of the same characters.
pub assume_specification[ <str as PartialEq<str>>::eq ](a: &str, b: &str) -> (r: bool)
    ensures
        r == (a@ == b@),
;

/// Flattens the per-kind device groups into the single named output set the
/// daemon iterates over: all backlight devices first, in their given order,
/// then all external monitors.
pub fn flatten_outputs(by_type: OutputByType) -> (r: Vec<(String, Output)>)
    ensures
        r@.len() == by_type.backlight@.len() + by_type.ddcutil@.len(),
        forall|i: int|
            0 <= i < by_type.backlight@.len() ==> #[trigger] r@[i] == (
                by_type.backlight@[i].0,
                Output::Backlight(by_type.backlight@[i].1),
            ),
        forall|i: int|
            0 <= i < by_type.ddcutil@.len() ==> #[trigger] r@[by_type.backlight@.len() + i] == (
                by_type.ddcutil@[i].0,
                Output::DdcUtil(by_type.ddcutil@[i].1),
            ),
{
    let OutputByType { mut backlight, mut ddcutil } = by_type;
    let ghost b0 = backlight@;
    let ghost d0 = ddcutil@;
    let mut r: Vec<(String, Output)> = Vec::new();
    while backlight.len() > 0
        invariant
            r@.len() + backlight@.len() == b0.len(),
            backlight@ == b0.skip(r@.len() as int),
            forall|i: int|
                0 <= i < r@.len() ==> #[trigger] r@[i] == (b0[i].0, Output::Backlight(b0[i].1)),
        decreases backlight@.len(),
    {
        proof {
            assert(backlight@[0] == b0[r@.len() as int]);
            assert(backlight@.skip(1) =~= b0.skip(r@.len() as int + 1));
        }
        let (name, o) = backlight.remove(0);
        r.push((name, Output::Backlight(o)));
    }
    while ddcutil.len() > 0
        invariant
            b0.len() <= r@.len(),
            r@.len() + ddcutil@.len() == b0.len() + d0.len(),
            ddcutil@ == d0.skip(r@.len() as int - b0.len() as int),
            forall|i: int|
                0 <= i < b0.len() ==> #[trigger] r@[i] == (b0[i].0, Output::Backlight(b0[i].1)),
            forall|i: int|
                0 <= i < r@.len() - b0.len() ==> #[trigger] r@[b0.len() + i] == (
                    d0[i].0,
                    Output::DdcUtil(d0[i].1),
                ),
        decreases ddcutil@.len(),
    {
        proof {
            assert(ddcutil@[0] == d0[r@.len() as int - b0.len() as int]);
            assert(ddcutil@.skip(1) =~= d0.skip(r@.len() as int - b0.len() as int + 1));
        }
        let (name, o) = ddcutil.remove(0);
        r.push((name, Output::DdcUtil(o)));
    }
    r
}

impl Config {
    /// Whether the named output device should include screen-content
    /// luminance in its state key; unknown names ask for none.
    pub fn use_output_contents(&self, name: &str) -> (r: bool)
        ensures
            r == match lookup_use_contents(self.output@, name@) {
                Some(b) => b,
                None => false,
            },
    {
        let mut i: usize = 0;
        proof {
            assert(self.output@.skip(0) =~= self.output@);
        }
        while i < self.output.len()
            invariant
                i <= self.output@.len(),
                lookup_use_contents(self.output@, name@) == lookup_use_contents(
                    self.output@.skip(i as int),
                    name@,
                ),
            decreases self.output@.len() - i,
        {
            proof {
                assert(self.output@.skip(i as int)[0] == self.output@[i as int]);
                assert(self.output@.skip(i as int).skip(1) =~= self.output@.skip(i + 1));
            }
            let hit = self.output[i].0.as_str().eq(name);
            let uc = match &self.output[i].1 {
                Output::Backlight(b) => b.use_contents,
                Output::DdcUtil(d) => d.use_contents,
            };
            if hit {
                return uc;
            }
            i = i + 1;
        }
        proof {
            assert(self.output@.skip(self.output@.len() as int) =~= Seq::<(String, Output)>::empty());
        }
        false
    }
}

} // verus!

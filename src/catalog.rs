//! The catalog of node kinds: for each type code, its ordered input and
//! output slots and their signal types.

use vstd::prelude::*;

use crate::types::Type;

verus! {

/// Number of logic node kinds; valid type codes are `0..LOGIC_KINDS`.
pub const LOGIC_KINDS: u8 = 60;

/// Number of IO bridge kinds; valid type codes are `0..BRIDGE_KINDS`.
pub const BRIDGE_KINDS: u8 = 10;

/// Lists of input and output signal types of a node kind.
pub struct ComponentIODef {
    /// Input types, in slot order.
    pub inputs: Vec<Type>,
    /// Output types, in slot order.
    pub outputs: Vec<Type>,
}

/// Input types of each logic node kind.
pub open spec fn logic_inputs(kind: u8) -> Seq<Type> {
    match kind {
        0 => seq![Type::OnOff],  // NOT
        1 => seq![Type::OnOff, Type::OnOff],  // AND
        2 => seq![Type::OnOff, Type::OnOff],  // OR
        3 => seq![Type::OnOff, Type::OnOff],  // XOR
        4 => seq![Type::OnOff, Type::OnOff],  // NAND
        5 => seq![Type::OnOff, Type::OnOff],  // NOR
        6 => seq![Type::Number, Type::Number],  // Add
        7 => seq![Type::Number, Type::Number],  // Subtract
        8 => seq![Type::Number, Type::Number],  // Multiply
        9 => seq![Type::Number, Type::Number],  // Divide
        10 => seq![Type::Number, Type::Number, Type::Number],  // Func3n
        11 => seq![Type::Number],  // Clamp
        12 => seq![Type::Number],  // Threshold
        13 => seq![Type::OnOff, Type::OnOff, Type::Number],  // MemoryRegister
        14 => seq![Type::Number],  // Abs
        15 => seq![],  // ConstantNum
        16 => seq![],  // ConstantOn
        17 => seq![Type::Number, Type::Number],  // GreaterThan
        18 => seq![Type::Number, Type::Number],  // LessThan
        19 => seq![],  // PropertySlider
        20 => seq![],  // PropertyDropdown
        21 => seq![Type::Number, Type::OnOff],  // NumericalJunction
        22 => seq![Type::Number, Type::Number, Type::OnOff],  // NumericalSwitchbox
        23 => seq![Type::Number, Type::Number, Type::OnOff],  // PIDController
        24 => seq![Type::OnOff, Type::OnOff],  // SRLatch
        25 => seq![Type::OnOff, Type::OnOff],  // JKFlipFlop
        26 => seq![Type::OnOff],  // Capacitor
        27 => seq![Type::OnOff],  // Blinker
        28 => seq![Type::OnOff],  // PushToToggle
        29 => seq![Type::Composite, Type::Number],  // CompositeReadOnOff
        30 => seq![Type::Composite, Type::OnOff],  // OldCompositeWriteOnOff
        31 => seq![Type::Composite, Type::Number],  // CompositeReadNum
        32 => seq![Type::Composite, Type::Number],  // OldCompositeWriteNum
        33 => seq![],  // PropertyToggle
        34 => seq![],  // PropertyNumber
        35 => seq![Type::Number],  // Delta
        36 => seq![
            Type::Number, Type::Number, Type::Number, Type::Number, Type::Number, Type::Number,
            Type::Number, Type::Number,
        ],  // Func8n
        37 => seq![Type::OnOff, Type::OnOff, Type::OnOff],  // UpDownCounter
        38 => seq![Type::Number, Type::Number],  // Modulo
        39 => seq![
            Type::Number, Type::Number, Type::Number, Type::Number, Type::Number, Type::OnOff,
        ],  // PIDControllerAdvanced
        40 => seq![
            Type::Composite, Type::Number, Type::Number, Type::Number, Type::Number,
            Type::Number, Type::Number, Type::Number, Type::Number, Type::Number, Type::Number,
            Type::Number, Type::Number, Type::Number, Type::Number, Type::Number, Type::Number,
            Type::Number, Type::Number, Type::Number, Type::Number, Type::Number, Type::Number,
            Type::Number, Type::Number, Type::Number, Type::Number, Type::Number, Type::Number,
            Type::Number, Type::Number, Type::Number, Type::Number, Type::Number,
        ],
        41 => seq![
            Type::Composite, Type::OnOff, Type::OnOff, Type::OnOff, Type::OnOff, Type::OnOff,
            Type::OnOff, Type::OnOff, Type::OnOff, Type::OnOff, Type::OnOff, Type::OnOff,
            Type::OnOff, Type::OnOff, Type::OnOff, Type::OnOff, Type::OnOff, Type::OnOff,
            Type::OnOff, Type::OnOff, Type::OnOff, Type::OnOff, Type::OnOff, Type::OnOff,
            Type::OnOff, Type::OnOff, Type::OnOff, Type::OnOff, Type::OnOff, Type::OnOff,
            Type::OnOff, Type::OnOff, Type::OnOff, Type::Number,
        ],
        42 => seq![Type::Number, Type::Number],  // Equal
        43 => seq![Type::Number, Type::OnOff],  // TooltipNum
        44 => seq![Type::OnOff],  // TooltipOnOff
        45 => seq![Type::Number],  // Func1n
        46 => seq![Type::OnOff, Type::OnOff, Type::OnOff, Type::OnOff],  // Func4b
        47 => seq![
            Type::OnOff, Type::OnOff, Type::OnOff, Type::OnOff, Type::OnOff, Type::OnOff,
            Type::OnOff, Type::OnOff,
        ],  // Func8b
        48 => seq![Type::OnOff],  // Pulse
        49 => seq![Type::OnOff, Type::Number],  // TimerTON
        50 => seq![Type::OnOff, Type::Number],  // TimerTOF
        51 => seq![Type::OnOff, Type::Number, Type::OnOff],  // TimerRTO
        52 => seq![Type::OnOff, Type::Number, Type::OnOff],  // TimerRTF
        53 => seq![Type::Composite, Type::Composite, Type::OnOff],  // CompositeSwitchbox
        54 => seq![Type::Number],  // NumToCompositeBin
        55 => seq![Type::Composite],  // CompositeBinToNum
        56 => seq![Type::Composite, Type::Video],  // Lua
        57 => seq![Type::Video, Type::Video, Type::OnOff],  // VideoSwitchbox
        58 => seq![],  // PropertyText
        59 => seq![Type::Audio, Type::Audio, Type::OnOff],  // AudioSwitchbox
        _ => Seq::empty(),
    }
}

/// Output types of each logic node kind.
pub open spec fn logic_outputs(kind: u8) -> Seq<Type> {
    match kind {
        0 => seq![Type::OnOff],  // NOT
        1 => seq![Type::OnOff],  // AND
        2 => seq![Type::OnOff],  // OR
        3 => seq![Type::OnOff],  // XOR
        4 => seq![Type::OnOff],  // NAND
        5 => seq![Type::OnOff],  // NOR
        6 => seq![Type::Number],  // Add
        7 => seq![Type::Number],  // Subtract
        8 => seq![Type::Number],  // Multiply
        9 => seq![Type::Number, Type::OnOff],  // Divide
        10 => seq![Type::Number],  // Func3n
        11 => seq![Type::Number],  // Clamp
        12 => seq![Type::OnOff],  // Threshold
        13 => seq![Type::Number],  // MemoryRegister
        14 => seq![Type::Number],  // Abs
        15 => seq![Type::Number],  // ConstantNum
        16 => seq![Type::OnOff],  // ConstantOn
        17 => seq![Type::OnOff],  // GreaterThan
        18 => seq![Type::OnOff],  // LessThan
        19 => seq![Type::Number],  // PropertySlider
        20 => seq![Type::Number],  // PropertyDropdown
        21 => seq![Type::Number, Type::Number],  // NumericalJunction
        22 => seq![Type::Number],  // NumericalSwitchbox
        23 => seq![Type::Number],  // PIDController
        24 => seq![Type::OnOff, Type::OnOff],  // SRLatch
        25 => seq![Type::OnOff, Type::OnOff],  // JKFlipFlop
        26 => seq![Type::OnOff],  // Capacitor
        27 => seq![Type::OnOff],  // Blinker
        28 => seq![Type::OnOff],  // PushToToggle
        29 => seq![Type::OnOff],  // CompositeReadOnOff
        30 => seq![Type::Composite],  // OldCompositeWriteOnOff
        31 => seq![Type::Number],  // CompositeReadNum
        32 => seq![Type::Composite],  // OldCompositeWriteNum
        33 => seq![Type::OnOff],  // PropertyToggle
        34 => seq![Type::Number],  // PropertyNumber
        35 => seq![Type::Number],  // Delta
        36 => seq![Type::Number],  // Func8n
        37 => seq![Type::Number],  // UpDownCounter
        38 => seq![Type::Number],  // Modulo
        39 => seq![Type::Number],  // PIDControllerAdvanced
        40 => seq![Type::Composite],  // CompositeWriteNum
        41 => seq![Type::Composite],  // CompositeWriteOnOff
        42 => seq![Type::OnOff],  // Equal
        43 => seq![],  // TooltipNum
        44 => seq![],  // TooltipOnOff
        45 => seq![Type::Number],  // Func1n
        46 => seq![Type::OnOff],  // Func4b
        47 => seq![Type::OnOff],  // Func8b
        48 => seq![Type::OnOff],  // Pulse
        49 => seq![Type::OnOff],  // TimerTON
        50 => seq![Type::OnOff],  // TimerTOF
        51 => seq![Type::OnOff],  // TimerRTO
        52 => seq![Type::OnOff],  // TimerRTF
        53 => seq![Type::Composite],  // CompositeSwitchbox
        54 => seq![Type::Composite],  // NumToCompositeBin
        55 => seq![Type::Number],  // CompositeBinToNum
        56 => seq![Type::Composite, Type::Video],  // Lua
        57 => seq![Type::Video],  // VideoSwitchbox
        58 => seq![],  // PropertyText
        59 => seq![Type::Audio],  // AudioSwitchbox
        _ => Seq::empty(),
    }
}

/// Input and output types of the logic node kind `kind`.
pub fn io_def(kind: u8) -> (r: ComponentIODef)
    requires
        kind < LOGIC_KINDS,
    ensures
        r.inputs@ == logic_inputs(kind),
        r.outputs@ == logic_outputs(kind),
{
    match kind {
        0 => ComponentIODef { inputs: vec![Type::OnOff], outputs: vec![Type::OnOff] },
        1 => ComponentIODef { inputs: vec![Type::OnOff, Type::OnOff], outputs: vec![Type::OnOff] },
        2 => ComponentIODef { inputs: vec![Type::OnOff, Type::OnOff], outputs: vec![Type::OnOff] },
        3 => ComponentIODef { inputs: vec![Type::OnOff, Type::OnOff], outputs: vec![Type::OnOff] },
        4 => ComponentIODef { inputs: vec![Type::OnOff, Type::OnOff], outputs: vec![Type::OnOff] },
        5 => ComponentIODef { inputs: vec![Type::OnOff, Type::OnOff], outputs: vec![Type::OnOff] },
        6 => ComponentIODef { inputs: vec![
            Type::Number, Type::Number], outputs: vec![Type::Number,
        ] },
        7 => ComponentIODef { inputs: vec![
            Type::Number, Type::Number], outputs: vec![Type::Number,
        ] },
        8 => ComponentIODef { inputs: vec![
            Type::Number, Type::Number], outputs: vec![Type::Number,
        ] },
        9 => ComponentIODef { inputs: vec![
            Type::Number, Type::Number], outputs: vec![Type::Number, Type::OnOff,
        ] },
        10 => ComponentIODef { inputs: vec![
            Type::Number, Type::Number, Type::Number], outputs: vec![Type::Number,
        ] },
        11 => ComponentIODef { inputs: vec![Type::Number], outputs: vec![Type::Number] },
        12 => ComponentIODef { inputs: vec![Type::Number], outputs: vec![Type::OnOff] },
        13 => ComponentIODef { inputs: vec![
            Type::OnOff, Type::OnOff, Type::Number], outputs: vec![Type::Number,
        ] },
        14 => ComponentIODef { inputs: vec![Type::Number], outputs: vec![Type::Number] },
        15 => ComponentIODef { inputs: vec![], outputs: vec![Type::Number] },
        16 => ComponentIODef { inputs: vec![], outputs: vec![Type::OnOff] },
        17 => ComponentIODef { inputs: vec![
            Type::Number, Type::Number], outputs: vec![Type::OnOff,
        ] },
        18 => ComponentIODef { inputs: vec![
            Type::Number, Type::Number], outputs: vec![Type::OnOff,
        ] },
        19 => ComponentIODef { inputs: vec![], outputs: vec![Type::Number] },
        20 => ComponentIODef { inputs: vec![], outputs: vec![Type::Number] },
        21 => ComponentIODef { inputs: vec![
            Type::Number, Type::OnOff], outputs: vec![Type::Number, Type::Number,
        ] },
        22 => ComponentIODef { inputs: vec![
            Type::Number, Type::Number, Type::OnOff], outputs: vec![Type::Number,
        ] },
        23 => ComponentIODef { inputs: vec![
            Type::Number, Type::Number, Type::OnOff], outputs: vec![Type::Number,
        ] },
        24 => ComponentIODef { inputs: vec![
            Type::OnOff, Type::OnOff], outputs: vec![Type::OnOff, Type::OnOff,
        ] },
        25 => ComponentIODef { inputs: vec![
            Type::OnOff, Type::OnOff], outputs: vec![Type::OnOff, Type::OnOff,
        ] },
        26 => ComponentIODef { inputs: vec![Type::OnOff], outputs: vec![Type::OnOff] },
        27 => ComponentIODef { inputs: vec![Type::OnOff], outputs: vec![Type::OnOff] },
        28 => ComponentIODef { inputs: vec![Type::OnOff], outputs: vec![Type::OnOff] },
        29 => ComponentIODef { inputs: vec![
            Type::Composite, Type::Number], outputs: vec![Type::OnOff,
        ] },
        30 => ComponentIODef { inputs: vec![
            Type::Composite, Type::OnOff], outputs: vec![Type::Composite,
        ] },
        31 => ComponentIODef { inputs: vec![
            Type::Composite, Type::Number], outputs: vec![Type::Number,
        ] },
        32 => ComponentIODef { inputs: vec![
            Type::Composite, Type::Number], outputs: vec![Type::Composite,
        ] },
        33 => ComponentIODef { inputs: vec![], outputs: vec![Type::OnOff] },
        34 => ComponentIODef { inputs: vec![], outputs: vec![Type::Number] },
        35 => ComponentIODef { inputs: vec![Type::Number], outputs: vec![Type::Number] },
        36 => ComponentIODef { inputs: vec![
            Type::Number, Type::Number, Type::Number, Type::Number, Type::Number, Type::Number,
            Type::Number, Type::Number], outputs: vec![Type::Number,
        ] },
        37 => ComponentIODef { inputs: vec![
            Type::OnOff, Type::OnOff, Type::OnOff], outputs: vec![Type::Number,
        ] },
        38 => ComponentIODef { inputs: vec![
            Type::Number, Type::Number], outputs: vec![Type::Number,
        ] },
        39 => ComponentIODef { inputs: vec![
            Type::Number, Type::Number, Type::Number, Type::Number, Type::Number, Type::OnOff],
            outputs: vec![Type::Number,
        ] },
        40 => ComponentIODef { inputs: vec![
            Type::Composite, Type::Number, Type::Number, Type::Number, Type::Number,
            Type::Number, Type::Number, Type::Number, Type::Number, Type::Number, Type::Number,
            Type::Number, Type::Number, Type::Number, Type::Number, Type::Number, Type::Number,
            Type::Number, Type::Number, Type::Number, Type::Number, Type::Number, Type::Number,
            Type::Number, Type::Number, Type::Number, Type::Number, Type::Number, Type::Number,
            Type::Number, Type::Number, Type::Number, Type::Number, Type::Number],
            outputs: vec![Type::Composite,
        ] },
        41 => ComponentIODef { inputs: vec![
            Type::Composite, Type::OnOff, Type::OnOff, Type::OnOff, Type::OnOff, Type::OnOff,
            Type::OnOff, Type::OnOff, Type::OnOff, Type::OnOff, Type::OnOff, Type::OnOff,
            Type::OnOff, Type::OnOff, Type::OnOff, Type::OnOff, Type::OnOff, Type::OnOff,
            Type::OnOff, Type::OnOff, Type::OnOff, Type::OnOff, Type::OnOff, Type::OnOff,
            Type::OnOff, Type::OnOff, Type::OnOff, Type::OnOff, Type::OnOff, Type::OnOff,
            Type::OnOff, Type::OnOff, Type::OnOff, Type::Number],
            outputs: vec![Type::Composite,
        ] },
        42 => ComponentIODef { inputs: vec![
            Type::Number, Type::Number], outputs: vec![Type::OnOff,
        ] },
        43 => ComponentIODef { inputs: vec![Type::Number, Type::OnOff], outputs: vec![] },
        44 => ComponentIODef { inputs: vec![Type::OnOff], outputs: vec![] },
        45 => ComponentIODef { inputs: vec![Type::Number], outputs: vec![Type::Number] },
        46 => ComponentIODef { inputs: vec![
            Type::OnOff, Type::OnOff, Type::OnOff, Type::OnOff], outputs: vec![Type::OnOff,
        ] },
        47 => ComponentIODef { inputs: vec![
            Type::OnOff, Type::OnOff, Type::OnOff, Type::OnOff, Type::OnOff, Type::OnOff,
            Type::OnOff, Type::OnOff], outputs: vec![Type::OnOff,
        ] },
        48 => ComponentIODef { inputs: vec![Type::OnOff], outputs: vec![Type::OnOff] },
        49 => ComponentIODef { inputs: vec![
            Type::OnOff, Type::Number], outputs: vec![Type::OnOff,
        ] },
        50 => ComponentIODef { inputs: vec![
            Type::OnOff, Type::Number], outputs: vec![Type::OnOff,
        ] },
        51 => ComponentIODef { inputs: vec![
            Type::OnOff, Type::Number, Type::OnOff], outputs: vec![Type::OnOff,
        ] },
        52 => ComponentIODef { inputs: vec![
            Type::OnOff, Type::Number, Type::OnOff], outputs: vec![Type::OnOff,
        ] },
        53 => ComponentIODef { inputs: vec![
            Type::Composite, Type::Composite, Type::OnOff], outputs: vec![Type::Composite,
        ] },
        54 => ComponentIODef { inputs: vec![Type::Number], outputs: vec![Type::Composite] },
        55 => ComponentIODef { inputs: vec![Type::Composite], outputs: vec![Type::Number] },
        56 => ComponentIODef { inputs: vec![
            Type::Composite, Type::Video], outputs: vec![Type::Composite, Type::Video,
        ] },
        57 => ComponentIODef { inputs: vec![
            Type::Video, Type::Video, Type::OnOff], outputs: vec![Type::Video,
        ] },
        58 => ComponentIODef { inputs: vec![], outputs: vec![] },
        _ => ComponentIODef { inputs: vec![
            Type::Audio, Type::Audio, Type::OnOff], outputs: vec![Type::Audio,
        ] },
    }
}
/// The position of a signal type in the bridge catalog.
pub open spec fn type_index(t: Type) -> u8 {
    match t {
        Type::OnOff => 0,
        Type::Number => 1,
        Type::Composite => 2,
        Type::Video => 3,
        Type::Audio => 4,
    }
}

/// The bridge kind of an IO pin of signal type `t`: the input kind of the
/// type, or the output kind right after it.
pub open spec fn bridge_kind_of(t: Type, output: bool) -> u8 {
    (2 * type_index(t) + if output {
        1int
    } else {
        0int
    }) as u8
}

/// The signal type of the IO bridge kind `kind`: kinds come in
/// input/output pairs for on/off, number, composite, video and audio.
pub open spec fn bridge_type(kind: u8) -> Type {
    if kind < 2 {
        Type::OnOff
    } else if kind < 4 {
        Type::Number
    } else if kind < 6 {
        Type::Composite
    } else if kind < 8 {
        Type::Video
    } else {
        Type::Audio
    }
}

/// Whether the IO bridge kind `kind` brings a signal into the
/// microcontroller (even codes) rather than out of it.
pub open spec fn bridge_is_input(kind: u8) -> bool {
    kind % 2 == 0
}

/// The signal type of the IO bridge kind `kind`.
pub fn bridge_signal_type(kind: u8) -> (r: Type)
    ensures
        r == bridge_type(kind),
{
    if kind < 2 {
        Type::OnOff
    } else if kind < 4 {
        Type::Number
    } else if kind < 6 {
        Type::Composite
    } else if kind < 8 {
        Type::Video
    } else {
        Type::Audio
    }
}

} // verus!

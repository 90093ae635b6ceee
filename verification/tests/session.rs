use ternary_rs::chat::{
    format_prompt, is_instruct, is_instruct_name, parse_line, Chat, Command, Reply, Room,
};
use ternary_rs::compute::device::{
    cpu_brand_string, described_name, detect_cpu_name, detect_gpus, Adapter, AdapterApi,
    AdapterKind, GpuDeviceType, GpuInfo, HardwareInfo, NameSource,
};
use ternary_rs::compute::gpu::{
    dispatch_grid, pack_activations, pad_to_u32, prepare_matvec, read_accumulators, scratch_sizes,
};
use ternary_rs::compute::select::CpuFeatures;
use ternary_rs::float_bits::{order_key, single_from_half};
use ternary_rs::i2s::{
    trailing_scale, unpack_interleaved_high, unpack_interleaved_low, unpack_sequential_high,
    unpack_sequential_low, weight_counts,
};
use ternary_rs::sort::rank;
use ternary_rs::tensor::{Ternary, TernaryTensor};

fn prompt_of(line: &str) -> Option<String> {
    match parse_line(line) {
        Command::Prompt(text) => Some(text),
        _ => None,
    }
}

#[test]
fn lines_are_commands_or_prompts() {
    assert!(matches!(parse_line("  \n"), Command::Skip));
    assert!(matches!(parse_line("/clear\n"), Command::Clear));
    assert!(matches!(parse_line(" /reset "), Command::Clear));
    assert!(matches!(parse_line("/quit"), Command::Quit));
    assert!(matches!(parse_line("/exit"), Command::Quit));
    assert!(matches!(parse_line("/info"), Command::Info));
    assert_eq!(prompt_of("  hello there \n").as_deref(), Some("hello there"));
    assert_eq!(prompt_of("/clear now").as_deref(), Some("/clear now"));
}

#[test]
fn instruct_models_are_known_by_name() {
    assert!(is_instruct(Some("Falcon3-1B-INSTRUCT")));
    assert!(is_instruct(Some("MyChatModel")));
    assert!(!is_instruct(Some("bitnet-b1.58-2B")));
    assert!(!is_instruct(None));
    assert!(is_instruct_name("tiny-chat"));
    assert!(!is_instruct_name("Tiny-Chat"));
    // The first letter is a capital outside ASCII.
    assert!(is_instruct(Some("\u{0130}CHAT")));
}

#[test]
fn prompts_are_wrapped_for_instruct_models() {
    assert_eq!(format_prompt("hi", true), "<|user|>\nhi\n<|assistant|>\n");
    assert_eq!(format_prompt("hi", false), "hi");
}

#[test]
fn context_room_is_judged() {
    let mut chat = Chat::new(10, 32);
    assert!(chat.starts());
    assert_eq!(chat.take_prompt(22), Room::Ample);
    assert_eq!(chat.total_tokens(), 22);
    assert!(!chat.starts());
    assert_eq!(chat.take_prompt(9), Room::Tight);
    assert_eq!(chat.total_tokens(), 31);
    assert_eq!(chat.take_prompt(1), Room::Full);
    assert_eq!(chat.total_tokens(), 31);
    chat.clear();
    assert_eq!(chat.total_tokens(), 0);
    assert_eq!(chat.take_prompt(usize::MAX), Room::Full);
}

#[test]
fn replies_end_where_they_should() {
    let mut chat = Chat::new(2, 100);
    let mut reply = Reply::new();
    assert!(!reply.may_go_on(&chat, 2, 2));
    assert!(reply.may_go_on(&chat, 5, 2));
    assert!(reply.take_text(&mut chat, "Hello"));
    assert!(reply.take_text(&mut chat, " world"));
    assert_eq!((reply.generated(), chat.total_tokens()), (2, 2));
    assert!(!reply.may_go_on(&chat, 5, 2));

    let mut full = Chat::new(10, 1);
    let mut reply = Reply::new();
    assert!(reply.take_text(&mut full, "x"));
    assert!(!reply.may_go_on(&full, 5, 2));
}

#[test]
fn markers_end_a_reply_even_in_pieces() {
    for marker in ["<|user|>", "<|assistant|>", "<|system|>", "<|endoftext|>"] {
        let mut chat = Chat::new(100, 100);
        let mut reply = Reply::new();
        assert!(reply.take_text(&mut chat, "text "));
        let (head, tail) = marker.split_at(3);
        assert!(reply.take_text(&mut chat, head));
        assert!(!reply.take_text(&mut chat, tail));
        assert_eq!(reply.generated(), 2);
    }
    // Only the last fifty bytes are searched.
    let mut chat = Chat::new(100, 100);
    let mut reply = Reply::new();
    assert!(reply.take_text(&mut chat, "<|us"));
    assert!(reply.take_text(&mut chat, &"é".repeat(24)));
    assert!(reply.take_text(&mut chat, "er|>"));
}

#[test]
fn arrangements_read_the_same_bytes_differently() {
    let data: Vec<u8> = (0..32).map(|i| if i == 0 { 0b00_01_10_11 } else { 0b01_01_01_01 }).collect();
    let neg = Ternary::Neg;
    let pos = Ternary::Pos;
    let a = unpack_interleaved_high(&data, 128);
    assert_eq!((a[0], a[32], a[64], a[96]), (neg, Ternary::Zero, pos, Ternary::Zero));
    let c = unpack_interleaved_low(&data, 128);
    assert_eq!((c[0], c[32], c[64], c[96]), (Ternary::Zero, pos, Ternary::Zero, neg));
    let b = unpack_sequential_low(&data, 8);
    assert_eq!(&b[..4], &[Ternary::Zero, pos, Ternary::Zero, neg]);
    let d = unpack_sequential_high(&data, 8);
    assert_eq!(&d[..4], &[neg, Ternary::Zero, pos, Ternary::Zero]);
}

#[test]
fn codes_after_the_last_block() {
    let mut data = vec![0b01_01_01_01u8; 33];
    data[32] = 0b10_00_10_01;
    let a = unpack_interleaved_high(&data, 131);
    assert_eq!(&a[128..], &[Ternary::Pos, Ternary::Neg, Ternary::Pos]);
    let c = unpack_interleaved_low(&data, 131);
    assert_eq!(&c[128..], &[Ternary::Zero; 3]);
}

#[test]
fn sequential_codes_are_what_a_tensor_holds() {
    let values = [Ternary::Pos, Ternary::Neg, Ternary::Zero, Ternary::Neg, Ternary::Pos];
    let t = TernaryTensor::pack(&values, 1, 5);
    assert_eq!(unpack_sequential_low(t.packed_data(), 5), values);
}

#[test]
fn scale_follows_the_codes() {
    let mut data = vec![0u8, 0];
    data.extend_from_slice(&1.5f32.to_le_bytes());
    assert_eq!(trailing_scale(&data, 5).map(f32::from_bits), Some(1.5));
    assert_eq!(trailing_scale(&data, 9), None);
    assert_eq!(trailing_scale(&[], 0), None);
}

#[test]
fn weights_are_counted() {
    let values = [
        Ternary::Pos,
        Ternary::Neg,
        Ternary::Zero,
        Ternary::Zero,
        Ternary::Pos,
        Ternary::Zero,
    ];
    assert_eq!(weight_counts(&TernaryTensor::pack(&values, 2, 3)), (1, 3, 2));
}

fn adapter(name: &str, kind: AdapterKind, api: AdapterApi) -> Adapter {
    Adapter { name: name.to_string(), kind, api }
}

#[test]
fn adapters_are_listed_once() {
    let gpus = detect_gpus(&[
        adapter("RTX", AdapterKind::DiscreteGpu, AdapterApi::Vulkan),
        adapter("UHD", AdapterKind::IntegratedGpu, AdapterApi::Dx12),
        adapter("RTX", AdapterKind::DiscreteGpu, AdapterApi::Gl),
        adapter("llvmpipe", AdapterKind::Cpu, AdapterApi::Other),
    ]);
    let names: Vec<&str> = gpus.iter().map(|g| g.name.as_str()).collect();
    assert_eq!(names, ["RTX", "UHD", "llvmpipe"]);
    let apis: Vec<&str> = gpus.iter().map(|g| g.backend.as_str()).collect();
    assert_eq!(apis, ["Vulkan", "DX12", "unknown"]);
    assert_eq!(gpus[0].device_type, GpuDeviceType::Discrete);
    assert_eq!(gpus[2].device_type.label(), "software");
    assert_eq!(gpus[1].vram_bytes, 0);
}

const FEATURES: CpuFeatures = CpuFeatures { avx2: true, avx512f: false, neon: false };

#[test]
fn detect_hardware() {
    let source = NameSource::Description("processor : 0\nmodel name\t: i9 @ 2.2: GHz\r\n".to_string());
    let hw = HardwareInfo::detect(&source, FEATURES, &[]);
    assert_eq!(hw.cpu_name, "i9 @ 2.2");
    assert_eq!(hw.cpu_compute_name(), "AVX2");
    assert!(hw.gpus.is_empty());
}

#[test]
fn boot_banner_runs() {
    let source = NameSource::Plain(" Apple M2 \n".to_string());
    let gpu = adapter("RTX", AdapterKind::DiscreteGpu, AdapterApi::Vulkan);
    let mut hw = HardwareInfo::detect(&source, FEATURES, &[gpu]);
    assert_eq!(
        hw.boot_banner(),
        [
            "",
            "  ternary-rs inference engine",
            "  ───────────────────────────────",
            "  [boot] CPU: Apple M2",
            "  [boot] CPU compute: AVX2 ternary kernel",
            "  [boot] GPU: RTX [Vulkan] (discrete)",
            "",
        ]
    );
    hw.cpu_name = String::new();
    hw.gpus = vec![GpuInfo {
        name: "X".to_string(),
        backend: "Metal".to_string(),
        device_type: GpuDeviceType::Integrated,
        vram_bytes: 8 * 1024 * 1024 * 1024,
    }];
    let lines = hw.boot_banner();
    assert_eq!(lines[3], "  [boot] CPU: (unknown)");
    assert_eq!(lines[5], "  [boot] GPU: X [Metal] (integrated (8192MB VRAM))");
    for vram in [1, 524_288, 1_572_864, 1_572_865, (1 << 60) + 524_287, (1 << 60) + 524_289, u64::MAX] {
        hw.gpus[0].vram_bytes = vram;
        let size = format!("({:.0}MB VRAM)", vram as f64 / (1024.0 * 1024.0));
        assert!(hw.boot_banner()[5].contains(&size), "{vram}");
    }
    hw.gpus.clear();
    assert_eq!(hw.boot_banner()[5], "  [boot] GPU: none detected");
}

#[test]
fn cpu_name_not_empty() {
    assert_eq!(described_name("model name\nmodel name : A\nmodel name : B"), "A");
    assert_eq!(described_name("vendor : x"), "");
    let regs: Vec<u32> = [*b" Int", *b"el\0\0", *b"i9 \0"].iter().map(|b| u32::from_le_bytes(*b)).collect();
    assert_eq!(cpu_brand_string(&regs).as_deref(), Some("Inteli9"));
    assert_eq!(cpu_brand_string(&[0, 0x2020_2020]), None);
    let named = |regs| detect_cpu_name(&NameSource::Registers(regs, "Family 6".to_string()));
    assert_eq!(named(Some(regs)), "Inteli9");
    assert_eq!(named(Some(vec![0])), "Family 6");
    assert_eq!(named(None), "Family 6");
    assert_eq!(detect_cpu_name(&NameSource::Unknown), "");
}

#[test]
fn compute_names_by_feature() {
    let name = |avx2, avx512f, neon| {
        let features = CpuFeatures { avx2, avx512f, neon };
        HardwareInfo::detect(&NameSource::Unknown, features, &[]).cpu_compute_name().to_string()
    };
    assert_eq!(name(true, true, false), "AVX-512");
    assert_eq!(name(false, false, true), "NEON");
    assert_eq!(name(false, false, false), "scalar");
}

#[test]
fn buffers_are_padded_to_words() {
    assert_eq!(pad_to_u32(&[1, 2, 3, 4]), [1, 2, 3, 4]);
    assert_eq!(pad_to_u32(&[1, 2, 3, 4, 5]), [1, 2, 3, 4, 5, 0, 0, 0]);
    assert_eq!(pack_activations(&[-1, 127, -128]), [255, 127, 128, 0]);
}

#[test]
fn accumulators_come_back_from_bytes() {
    let accs = [0i32, -1, i32::MAX, i32::MIN, 123_456];
    let bytes: Vec<u8> = accs.iter().flat_map(|a| a.to_le_bytes()).collect();
    assert_eq!(read_accumulators(&bytes), accs);
    assert_eq!(read_accumulators(&bytes[..7]), [0]);
}

#[test]
fn gpu_jobs_are_prepared() {
    let w = TernaryTensor::pack(&[Ternary::Pos; 6], 2, 3);
    let job = prepare_matvec(&w, &[1, -2, 3]).unwrap();
    assert_eq!(job.weight_bytes.len(), 4);
    assert_eq!(job.act_bytes, [1, 254, 3, 0]);
    assert_eq!((job.output_size, job.rows, job.cols), (8, 2, 3));
    assert!(prepare_matvec(&TernaryTensor::pack(&[], 2, 0), &[]).is_none());
    assert_eq!(scratch_sizes(3, 10, 7), (36, 12));
    assert_eq!(scratch_sizes(3, 7, 10), (36, 12));
    assert_eq!(dispatch_grid(33, 16), (2, 1));
    assert_eq!(dispatch_grid(0, 17), (0, 2));
}

#[test]
fn halves_convert_exactly() {
    for (half, single) in [
        (0x0000u16, 0.0f32),
        (0x8000, -0.0),
        (0x3C00, 1.0),
        (0xC000, -2.0),
        (0x7BFF, 65504.0),
        (0x0001, 5.960_464_5e-8),
        (0x03FF, 6.097_555e-5),
        (0x0400, 6.103_515_6e-5),
        (0x7C00, f32::INFINITY),
        (0xFC00, f32::NEG_INFINITY),
        (0x3555, 0.333_251_95),
    ] {
        assert_eq!(single_from_half(half), single.to_bits(), "{half:#06x}");
    }
    assert!(f32::from_bits(single_from_half(0x7E00)).is_nan());
}

#[test]
fn keys_order_as_numbers_do() {
    let numbers = [f32::NEG_INFINITY, -2.5, -1.0e-40, -0.0, 1.0e-40, 1.0, 3.0e38, f32::INFINITY];
    let keys: Vec<i64> = numbers.iter().map(|x: &f32| order_key(x.to_bits()).unwrap()).collect();
    assert!(keys.windows(2).all(|w| w[0] < w[1]));
    assert_eq!(order_key(0.0f32.to_bits()), order_key((-0.0f32).to_bits()));
    assert_eq!(order_key(f32::NAN.to_bits()), None);
}

#[test]
fn ranking_keeps_the_order_of_equals() {
    assert_eq!(rank(&[3, 7, 3, 9, 7]), [3, 1, 4, 0, 2]);
    assert_eq!(rank(&[]), Vec::<usize>::new());
}

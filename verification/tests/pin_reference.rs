use embedded_template::pinout::{
    args_error_message, assigned_pins, block_pin_keys_are_defined, block_sort_key, camel_case, check_resources,
    conflicts_message, describe, describe_peripheral, describe_pin, format_dma, kind_field,
    list_blocks, looks_like_pin, names_chip_feature, pin_note, pin_sort_key, pins_error_message,
    pins_in, pins_request, print_snippet, signals, wrap, Block, Chip, Clocks, DmaChannel,
    Interrupt, KernelClock, PinFunction, PinsArgsError, PinsError, PinsRequest, Severity,
};

fn b(s: &str) -> Vec<u8> {
    s.as_bytes().to_vec()
}

fn text(v: Vec<u8>) -> String {
    String::from_utf8(v).expect("utf-8")
}

fn pin(pin: &str, signal: &str, af: Option<u8>) -> PinFunction {
    PinFunction { pin: b(pin), signal: b(signal), af }
}

fn block(name: &str, kind: &str, pins: Vec<PinFunction>) -> Block {
    Block {
        name: b(name),
        kind: b(kind),
        pins,
        dma_channels: Vec::new(),
        interrupts: Vec::new(),
        rcc: None,
    }
}

fn usart_rx_dma() -> DmaChannel {
    DmaChannel {
        signal: b("RX"),
        dma: Some(b("DMA2")),
        channel: Some(b("DMA2_CH2")),
        dmamux: None,
        request: Some(4),
        remap: Vec::new(),
    }
}

fn chip() -> Chip {
    let mut usart = block(
        "USART1",
        "usart",
        vec![
            pin("PB7", "RX", Some(7)),
            pin("PA10", "RX", Some(7)),
            pin("PB6", "TX", Some(7)),
            pin("PA9", "TX", Some(7)),
        ],
    );
    usart.dma_channels.push(usart_rx_dma());
    usart.interrupts.push(Interrupt { signal: b("GLOBAL"), interrupt: b("USART1") });
    usart.rcc = Some(Clocks { bus_clock: b("APB2"), kernel_clock: KernelClock::Clock(b("PCLK2")) });
    let mut i2c = block("I2C1", "i2c", vec![pin("PB8", "SCL", Some(4)), pin("PB9", "SDA", Some(4))]);
    i2c.interrupts.push(Interrupt { signal: b("EV"), interrupt: b("I2C1_EV") });
    i2c.interrupts.push(Interrupt { signal: b("ER"), interrupt: b("I2C1_ER") });
    Chip {
        name: b("STM32F411CEUx"),
        family: b("STM32F4"),
        pins: ["PA0", "PA5", "PA7", "PA8", "PA9", "PA10", "PA13", "PA14", "PB3", "PB6", "PB7",
            "PB8", "PB9", "PC14", "PH0"]
            .iter()
            .map(|p| b(p))
            .collect(),
        blocks: vec![
            usart,
            block(
                "RCC",
                "rcc",
                vec![
                    pin("PH0", "OSC_IN", None),
                    pin("PC14", "OSC32_IN", None),
                    pin("PA8", "MCO_1", Some(0)),
                ],
            ),
            block(
                "SPI1",
                "spi",
                vec![pin("PB3", "SCK", Some(5)), pin("PA7", "MOSI", Some(5)), pin("PA5", "SCK", Some(5))],
            ),
            block("SYS", "", vec![pin("PA13", "JTMS-SWDIO", None), pin("PA14", "JTCK-SWCLK", None)]),
            block("TIM10", "timer", vec![pin("PB8", "CH1", Some(3))]),
            block("TIM2", "timer", vec![pin("PA5", "CH1", Some(1))]),
            i2c,
            block("CRC", "crc", Vec::new()),
        ],
    }
}

#[test]
fn pin_names_are_told_from_block_names_by_form() {
    assert!(looks_like_pin(b"PA9"));
    assert!(looks_like_pin(b"PA0_C"));
    assert!(!looks_like_pin(b"SPI1"));
    assert!(!looks_like_pin(b"PA"));
    assert!(!looks_like_pin(b"pa9"));
}

#[test]
fn pins_inside_other_identifiers_are_not_pins() {
    let found: Vec<String> =
        pins_in(b"let r = (PA9, SPI1, PB3_C, xPC1, PD); // PA13").into_iter().map(text).collect();
    assert_eq!(found, vec!["PA9", "PB3_C", "PA13"]);
}

#[test]
fn sort_keys_put_pa9_before_pa10() {
    assert_eq!(pin_sort_key(b"PA10"), (b'A' as u32, b(""), 10));
    assert_eq!(pin_sort_key(b"PA0_C"), (b'A' as u32, b("_C"), 0));
    assert_eq!(pin_sort_key(b"X1"), ('~' as u32, b("X1"), 0));
    assert_eq!(block_sort_key(b"TIM10"), (b("TIM"), 10));
    assert_eq!(block_sort_key(b"RCC"), (b("RCC"), 0));
    assert_eq!(block_sort_key(b"TIM99999999999"), (b("TIM"), 0));
}

#[test]
fn resources_struct_and_field_names() {
    assert_eq!(text(camel_case(b"USART1")), "Usart1");
    assert_eq!(kind_field(b"usart", b"USART1"), b"usart");
    assert_eq!(kind_field(b"", b"SYS"), b"SYS");
}

#[test]
fn names_are_wrapped_at_the_width() {
    let names = vec![b("AAA"), b("BB"), b("C"), b("DDDDDDDDD")];
    let lines: Vec<String> = wrap(&names, 6).into_iter().map(text).collect();
    assert_eq!(lines, vec!["AAA BB", "C", "DDDDDDDDD"]);
    assert!(wrap(&[], 6).is_empty());
}

#[test]
fn dma_bindings_list_what_is_known() {
    assert_eq!(text(format_dma(&usart_rx_dma())), "контроллер DMA2, канал DMA2_CH2, запрос 4");
    let remapped = DmaChannel {
        signal: b("TX"),
        dma: None,
        channel: None,
        dmamux: Some(b("DMAMUX1")),
        request: None,
        remap: vec![(b("SYSCFG_CFGR1"), b("USART1_TX_DMA_RMP"))],
    };
    assert_eq!(text(format_dma(&remapped)), "через DMAMUX1, ремап SYSCFG_CFGR1.USART1_TX_DMA_RMP");
    let empty = DmaChannel {
        signal: b("TX"),
        dma: None,
        channel: None,
        dmamux: None,
        request: None,
        remap: Vec::new(),
    };
    assert_eq!(text(format_dma(&empty)), "—");
}

#[test]
fn debug_port_and_crystal_pins_are_noted() {
    let c = chip();
    let (severity, note) = pin_note(&c, b"PA13").expect("debug port");
    assert_eq!(severity, Severity::Conflict);
    assert_eq!(text(note), "SWDIO — отладочный порт, занимать нельзя");
    let (severity, note) = pin_note(&c, b"PH0").expect("crystal");
    assert_eq!(severity, Severity::Warning);
    assert_eq!(text(note), "OSC_IN — вывод кварца (занят, если тактирование от HSE)");
    let (_, note) = pin_note(&c, b"PC14").expect("32 kHz crystal");
    assert_eq!(text(note), "OSC32_IN — вывод часового кварца 32 кГц (занят, если LSE используется)");
    let (_, note) = pin_note(&c, b"PA8").expect("clock output");
    assert_eq!(text(note), "MCO_1 — вывод тактового выхода RCC");
    assert!(pin_note(&c, b"PA9").is_none());
}

#[test]
fn a_block_is_described_with_pins_dma_clocks_and_interrupts() {
    let answer = text(describe_peripheral(&chip(), b"USART1").expect("block"));
    assert_eq!(
        answer,
        "STM32F411CEUx (STM32F4) — USART1\n\n\
         выводы:\n\
         \x20 PA9    TX  AF7\n\
         \x20 PA10   RX  AF7\n\
         \x20 PB6    TX  AF7\n\
         \x20 PB7    RX  AF7\n\
         \nDMA:\n\
         \x20 RX  контроллер DMA2, канал DMA2_CH2, запрос 4\n\
         \nтактирование:\n\
         \x20 шина     APB2\n\
         \x20 источник PCLK2\n\
         \nпрерывания:\n\
         \x20 GLOBAL  USART1\n"
    );
}

#[test]
fn a_pin_line_carries_its_warning() {
    let answer = text(describe(&chip(), b"SPI1").expect("block"));
    assert_eq!(
        answer,
        "STM32F411CEUx (STM32F4) — SPI1\n\n\
         выводы:\n\
         \x20 PA5    SCK   AF5\n\
         \x20 PA7    MOSI  AF5\n\
         \x20 PB3    SCK   AF5    ! JTDO/SWO — свободен в режиме SWD (но это же вывод трассировки SWO)\n"
    );
    let bare = text(describe(&chip(), b"CRC").expect("block"));
    assert_eq!(bare, "STM32F411CEUx (STM32F4) — CRC\n\nвыводов нет (блок не выходит наружу)\n");
}

#[test]
fn a_mux_clock_is_named_by_register_and_field() {
    let mut c = chip();
    c.blocks[0].rcc =
        Some(Clocks { bus_clock: b("APB2"), kernel_clock: KernelClock::Mux(b("CCIPR"), b("USART1SEL")) });
    let answer = text(describe_peripheral(&c, b"USART1").expect("block"));
    assert!(answer.contains(
        "\nтактирование:\n  шина     APB2\n  источник выбирается мультиплексором CCIPR.USART1SEL (embassy: Config.rcc.mux)\n"
    ));
}

#[test]
fn unknown_blocks_and_pins_are_errors() {
    let c = chip();
    let e = describe_peripheral(&c, b"SAI1").expect_err("no such block");
    assert_eq!(e, PinsError::UnknownBlock(b("SAI1")));
    assert_eq!(text(pins_error_message(&c, &e)), "на STM32F411CEUx нет блока SAI1 — список: cargo xtask pins");
    let e = describe(&c, b"PA1").expect_err("no such pin");
    assert_eq!(e, PinsError::UnknownPin(b("PA1")));
    assert_eq!(
        text(pins_error_message(&c, &e)),
        "вывода PA1 нет в корпусе STM32F411CEUx — метаданные пакетные, значит его нет и в типах embassy"
    );
    assert_eq!(print_snippet(&c, b"SAI1").expect_err("no such block"), PinsError::UnknownBlock(b("SAI1")));
}

#[test]
fn a_pin_is_described_with_its_functions() {
    let c = chip();
    let answer = text(describe_pin(&c, b"PA13").expect("pin"));
    assert_eq!(
        answer,
        "STM32F411CEUx (STM32F4) — PA13\n\n\
         ! SWDIO — отладочный порт, занимать нельзя\n\n\
         функции (1):\n\
         \x20 SYS  JTMS-SWDIO   —\n"
    );
    let answer = text(describe_pin(&c, b"PA5").expect("pin"));
    assert_eq!(
        answer,
        "STM32F411CEUx (STM32F4) — PA5\n\n\
         функции (2):\n\
         \x20 SPI1  SCK          AF5\n\
         \x20 TIM2  CH1          AF1\n"
    );
    let answer = text(describe_pin(&c, b"PB8").expect("pin"));
    assert!(answer.ends_with("  I2C1   SCL          AF4\n  TIM10  CH1          AF3\n"));
    let gpio = text(describe_pin(&c, b"PA0").expect("pin"));
    assert_eq!(gpio, "STM32F411CEUx (STM32F4) — PA0\n\nпериферийных функций нет — только GPIO\n");
}

#[test]
fn blocks_are_listed_in_natural_order() {
    let answer = text(list_blocks(&chip()));
    assert_eq!(
        answer,
        "STM32F411CEUx (STM32F4)\n\n\
         блоки с выводами (7):\n\
         \x20 I2C1 RCC SPI1 SYS TIM2 TIM10 USART1\n\
         \nподробнее:\n\
         \x20 cargo xtask pins SPI1   # выводы, DMA, тактирование и прерывания блока\n\
         \x20 cargo xtask pins PA9    # что умеет конкретный вывод\n"
    );
}

#[test]
fn template_fields_prefer_free_pins() {
    let c = chip();
    let fields = signals(&c, &c.blocks[2]);
    assert_eq!(fields.len(), 2);
    assert_eq!(fields[0].signal, b("MOSI"));
    assert_eq!(fields[0].default, b("PA7"));
    assert!(fields[0].alternatives.is_empty());
    assert_eq!(fields[1].signal, b("SCK"));
    assert_eq!(fields[1].default, b("PA5"));
    assert_eq!(fields[1].alternatives, vec![b("PB3(AF5)")]);
}

#[test]
fn a_template_without_interrupt_handlers() {
    let answer = text(print_snippet(&chip(), b"SPI1").expect("block"));
    assert_eq!(
        answer,
        "STM32F411CEUx (STM32F4) — SPI1: заготовка\n\n\
         // Подсказка: типы и доступность выводов проверит компилятор.\n\n\
         // bind_interrupts! этому блоку не нужен (в embassy у него нет обработчика прерывания)\n\
         \n// cross/bsp/src/resources.rs\n\
         assign_resources! {\n\
         \x20   spi1: Spi1Resources {\n\
         \x20       spi: SPI1,\n\
         \x20       mosi: PA7,\n\
         \x20       sck: PA5,   // ещё: PB3(AF5)\n\
         \x20   }\n\
         }\n"
    );
}

#[test]
fn a_template_binds_the_interrupt_handlers() {
    let answer = text(print_snippet(&chip(), b"I2C1").expect("block"));
    assert!(answer.contains(
        "// cross/app/src/main.rs — рядом с созданием периферии\n\
         bind_interrupts!(struct Irqs {\n\
         \x20   I2C1_EV => i2c::EventInterruptHandler<peripherals::I2C1>;\n\
         \x20   I2C1_ER => i2c::ErrorInterruptHandler<peripherals::I2C1>;\n\
         });\n"
    ));
    let usart = text(print_snippet(&chip(), b"USART1").expect("block"));
    assert!(usart.contains("    USART1 => usart::InterruptHandler<peripherals::USART1>;\n"));
    assert!(usart.contains("        // DMA rx: контроллер DMA2, канал DMA2_CH2, запрос 4 — подставьте свободный канал\n"));
    assert!(usart.contains("        rx: PB7,  // ещё: PA10(AF7)\n"));
}

#[test]
fn the_pin_check_reports_a_taken_debug_port() {
    let c = chip();
    let resources = "    usart: Usart1Resources {\n        tx: PA9,\n        swd: PA13, // PA14\n        rx: PB3\r\n    }\n";
    let used: Vec<(usize, String)> =
        assigned_pins(&c, resources.as_bytes()).into_iter().map(|(n, p)| (n, text(p))).collect();
    assert_eq!(used, vec![(2, "PA9".to_owned()), (3, "PA13".to_owned()), (4, "PB3".to_owned())]);
    let report = check_resources(&c, b"cross/bsp/src/resources.rs", resources.as_bytes());
    assert_eq!(report.conflicts, 1);
    assert_eq!(
        text(report.text),
        "STM32F411CEUx (STM32F4) — проверка распиновки\n\n\
         файл: cross/bsp/src/resources.rs\n\
         назначено выводов: 3\n\n\
         КОНФЛИКТ: PA13 (строка 3) — SWDIO — отладочный порт, занимать нельзя\n\
         внимание: PB3 (строка 4) — JTDO/SWO — свободен в режиме SWD (но это же вывод трассировки SWO)\n"
    );
    assert_eq!(
        text(conflicts_message(report.conflicts)),
        "занято выводов отладочного порта: 1 — после прошивки плата перестанет отвечать пробнику, \
         вытаскивать придётся через `probe-rs erase --connect-under-reset`"
    );
}

#[test]
fn the_pin_check_passes_and_notices_an_empty_assignment() {
    let c = chip();
    let report = check_resources(&c, b"r.rs", b"tx: PA9,\nrx: PA10\n");
    assert_eq!(report.conflicts, 0);
    assert!(text(report.text).ends_with("назначено выводов: 2\n\nотладочный порт не занят\n"));
    let empty = check_resources(&c, b"r.rs", b"// PA13 only in a comment\n");
    assert_eq!(
        text(empty.text),
        "STM32F411CEUx (STM32F4) — проверка распиновки\n\nфайл: r.rs\n\nвыводов не назначено — распиновка ещё не заполнена\n"
    );
}

#[test]
fn command_lines_of_the_reference() {
    let args = |xs: &[&str]| xs.iter().map(|x| b(x)).collect::<Vec<_>>();
    assert_eq!(pins_request(&args(&[])), Ok(PinsRequest::List));
    assert_eq!(pins_request(&args(&["usart1"])), Ok(PinsRequest::Describe(b("usart1"))));
    assert_eq!(pins_request(&args(&["", "PA9"])), Ok(PinsRequest::Describe(b("PA9"))));
    assert_eq!(pins_request(&args(&["--snippet", "SPI1"])), Ok(PinsRequest::Snippet(b("SPI1"))));
    assert_eq!(pins_request(&args(&["--check"])), Ok(PinsRequest::Check));
    assert_eq!(pins_request(&args(&["--check", "PA9"])), Err(PinsArgsError::CheckAlone));
    assert_eq!(pins_request(&args(&["--snippet"])), Err(PinsArgsError::SnippetNeedsBlock));
    assert_eq!(pins_request(&args(&["--bad", "a", "b"])), Err(PinsArgsError::UnknownFlag(b("--bad"))));
    assert_eq!(pins_request(&args(&["a", "b", "--bad"])), Err(PinsArgsError::Extra(b("b"))));
    assert_eq!(
        text(args_error_message(&PinsArgsError::Extra(b("b")))),
        "лишний аргумент b: блок или вывод указывается один"
    );
    assert_eq!(
        text(args_error_message(&PinsArgsError::UnknownFlag(b("--x")))),
        "неизвестный ключ --x; есть только --snippet (заготовка кода под блок) и --check (проверить занятые в resources.rs выводы)"
    );
}

#[test]
fn chip_drift_is_seen_in_the_manifest() {
    assert!(names_chip_feature(b"features = [\"stm32f411ce\", \"rt\"]", b"stm32f411ce"));
    assert!(!names_chip_feature(b"features = [\"stm32f411cex\"]", b"stm32f411ce"));
}

#[test]
fn only_the_described_block_needs_ascii_port_letters() {
    let mut c = chip();
    c.blocks.push(block("ODD1", "odd", vec![PinFunction { pin: "PЖ1".as_bytes().to_vec(), signal: b("TX"), af: Some(1) }]));
    assert!(block_pin_keys_are_defined(&c, b"USART1"));
    assert!(!block_pin_keys_are_defined(&c, b"ODD1"));
    assert!(block_pin_keys_are_defined(&c, b"NOPE"));
    assert!(describe_peripheral(&c, b"USART1").is_ok());
}

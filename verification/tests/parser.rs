use flip_link::memory::MemoryEntry;
use flip_link::parser::Parser;
use flip_link::script::get_includes_from_linker_script;

#[test]
fn parse() {
    const LINKER_SCRIPT: &str = "MEMORY
{
  FLASH : ORIGIN = 0x00000000, LENGTH = 256K
  RAM : ORIGIN = 0x20000000, LENGTH = 64K
}

INCLUDE device.x
";
    let mut parser = Parser {
        script: LINKER_SCRIPT,
        position: 0,
        ram_line: 0,
    };

    assert_eq!(
        parser.find_ram_in_linker_script(),
        Some(MemoryEntry {
            line: 3,
            origin: 0x20000000,
            length: 64 * 1024,
        })
    );

    assert_eq!(
        get_includes_from_linker_script(LINKER_SCRIPT),
        vec!["device.x"]
    );
}

#[test]
fn parse_no_units() {
    const LINKER_SCRIPT: &str = "MEMORY
    {
      FLASH : ORIGIN = 0x00000000, LENGTH = 262144
      RAM : ORIGIN = 0x20000000, LENGTH = 65536
    }

    INCLUDE device.x
    ";
    let mut parser = Parser {
        script: LINKER_SCRIPT,
        position: 0,
        ram_line: 0,
    };

    assert_eq!(
        parser.find_ram_in_linker_script(),
        Some(MemoryEntry {
            line: 3,
            origin: 0x20000000,
            length: 64 * 1024,
        })
    );

    assert_eq!(
        get_includes_from_linker_script(LINKER_SCRIPT),
        vec!["device.x"]
    );
}

#[test]
fn parse_plus() {
    const LINKER_SCRIPT: &str = "MEMORY
    {
      FLASH : ORIGIN = 0x08000000, LENGTH = 2M
      RAM : ORIGIN = 0x20020000, LENGTH = 368K + 16K
    }

    INCLUDE device.x
    ";

    let mut parser = Parser {
        script: LINKER_SCRIPT,
        position: 0,
        ram_line: 0,
    };

    assert_eq!(
        parser.find_ram_in_linker_script(),
        Some(MemoryEntry {
            line: 3,
            origin: 0x20020000,
            length: (368 + 16) * 1024,
        })
    );

    assert_eq!(
        get_includes_from_linker_script(LINKER_SCRIPT),
        vec!["device.x"]
    );
}

#[test]
fn parse_plus_origin_k() {
    const LINKER_SCRIPT: &str = "MEMORY
    {
      FLASH : ORIGIN = 0x08000000, LENGTH = 2M
      RAM : ORIGIN = 0x20020000 + 100K, LENGTH = 368K
    }
    ";

    let mut parser = Parser {
        script: LINKER_SCRIPT,
        position: 0,
        ram_line: 0,
    };

    assert_eq!(
        parser.find_ram_in_linker_script(),
        Some(MemoryEntry {
            line: 3,
            origin: 0x20020000 + (100 * 1024),
            length: 368 * 1024,
        })
    );
}

#[test]
fn parse_plus_origin_m() {
    const LINKER_SCRIPT: &str = "MEMORY
    {
      FLASH : ORIGIN = 0x08000000, LENGTH = 2M
      RAM : ORIGIN = 0x20020000 + 100M, LENGTH = 368K
    }

    INCLUDE device.x
    ";
    let mut parser = Parser {
        script: LINKER_SCRIPT,
        position: 0,
        ram_line: 0,
    };
    assert_eq!(
        parser.find_ram_in_linker_script(),
        Some(MemoryEntry {
            line: 3,
            origin: 0x20020000 + (100 * 1024 * 1024),
            length: 368 * 1024,
        })
    );

    assert_eq!(
        get_includes_from_linker_script(LINKER_SCRIPT),
        vec!["device.x"]
    );
}

// test attributes https://sourceware.org/binutils/docs/ld/MEMORY.html
#[test]
fn parse_attributes() {
    const LINKER_SCRIPT: &str = "MEMORY
    {
        /* NOTE 1 K = 1 KiBi = 1024 bytes */
        FLASH (rx) : ORIGIN = 0x08000000, LENGTH = 1024K
        RAM (xrw)  : ORIGIN = 0x20000000, LENGTH = 128K
    }
    ";

    let mut parser = Parser {
        script: LINKER_SCRIPT,
        position: 0,
        ram_line: 0,
    };
    assert_eq!(
        parser.find_ram_in_linker_script(),
        Some(MemoryEntry {
            line: 4,
            origin: 0x20000000,
            length: 128 * 1024,
        })
    );
}

#[test]
fn parse_new_line() {
    const LINKER_SCRIPT: &str = "MEMORY
    {
        FLASH : ORIGIN = 0x08000000, LENGTH = 2M
        RAM : ORIGIN = 0x20000000,
        LENGTH = 256K
    }
    ";
    let mut parser = Parser {
        script: LINKER_SCRIPT,
        position: 0,
        ram_line: 0,
    };
    assert_eq!(
        parser.find_ram_in_linker_script(),
        Some(MemoryEntry {
            line: 3,
            origin: 0x20000000,
            length: 256 * 1024,
        })
    );
}

#[test]
fn parse_new_lines() {
    const LINKER_SCRIPT: &str = "MEMORY
    {
      RAM
      :
      ORIGIN
      =
      0x20000000
      ,
    LENGTH
    =
    256K
    }
    ";

    let mut parser = Parser {
        script: LINKER_SCRIPT,
        position: 0,
        ram_line: 0,
    };
    assert_eq!(
        parser.find_ram_in_linker_script(),
        Some(MemoryEntry {
            line: 2,
            origin: 0x20000000,
            length: 256 * 1024,
        })
    );
}

#[test]
fn parse_same_line() {
    const LINKER_SCRIPT: &str =  "MEMORY { FLASH : ORIGIN = 0x00000000, LENGTH = 1024K RAM : ORIGIN = 0x20000000, LENGTH = 256K }";
    let mut parser = Parser {
        script: LINKER_SCRIPT,
        position: 0,
        ram_line: 0,
    };
    assert_eq!(
        parser.find_ram_in_linker_script(),
        Some(MemoryEntry {
            line: 0,
            origin: 0x20000000,
            length: 256 * 1024,
        })
    );
}

#[test]
fn parse_section() {
    const LINKER_SCRIPT: &str = "MEMORY
    {
        FLASH : ORIGIN = 0x00000000, LENGTH = 1024K
        RAM : ORIGIN = 0x20000000, LENGTH = 256K
    };

    SECTIONS {};";

    let mut parser = Parser {
        script: LINKER_SCRIPT,
        position: 0,
        ram_line: 0,
    };

    assert_eq!(
        parser.find_ram_in_linker_script(),
        Some(MemoryEntry {
            line: 3,
            origin: 0x20000000,
            length: 256 * 1024,
        })
    );
}

#[test]
fn parse_memory_replicate() {
    const LINKER_SCRIPT: &str = "
    MEMORY { FLASH : ORIGIN = 0x00000000, LENGTH = 1024K }
    MEMORY { RAM : ORIGIN = 0x20000000, LENGTH = 256K }";

    let mut parser = Parser {
        script: LINKER_SCRIPT,
        position: 0,
        ram_line: 0,
    };

    assert_eq!(
        parser.find_ram_in_linker_script(),
        Some(MemoryEntry {
            line: 2,
            origin: 0x20000000,
            length: 256 * 1024,
        })
    );
}

#[test]
fn parse_sections_replicate() {
    const LINKER_SCRIPT: &str = "MEMORY
    {
        FLASH : ORIGIN = 0x08000000, LENGTH = 2M
        RAM : ORIGIN = 0x20020000, LENGTH = 368K
    }
    SECTIONS {}
    SECTIONS {}";

    let mut parser = Parser {
        script: LINKER_SCRIPT,
        position: 0,
        ram_line: 0,
    };

    assert_eq!(
        parser.find_ram_in_linker_script(),
        Some(MemoryEntry {
            line: 3,
            origin: 0x20020000,
            length: 368 * 1024,
        })
    );
}

#[test]
fn parse_sections_include_memory() {
    const LINKER_SCRIPT: &str = "MEMORY
    {
        FLASH : ORIGIN = 0x08000000, LENGTH = 2M
        RAM : ORIGIN = 0x20020000, LENGTH = 368K
    }

    SECTIONS {
    MEMORY : {}
    }";

    let mut parser = Parser {
        script: LINKER_SCRIPT,
        position: 0,
        ram_line: 0,
    };
    assert_eq!(
        parser.find_ram_in_linker_script(),
        Some(MemoryEntry {
            line: 3,
            origin: 0x20020000,
            length: 368 * 1024,
        })
    );
}

#[test]
fn parse_comment() {
    const LINKER_SCRIPT: &str = "/*
    MEMORY
    {
        RAM (rw) : ORIGIN = 0x20020000, LENGTH = 368K
    }
    */
    ";

    let mut parser = Parser {
        script: LINKER_SCRIPT,
        position: 0,
        ram_line: 0,
    };
    assert_eq!(parser.find_ram_in_linker_script(), None);
}

#[test]
fn parse_empty() {
    const LINKER_SCRIPT: &str = "
    MEMORY {}

    SECTIONS {
    MEMORY : {}
    }
    ";
    let mut parser = Parser {
        script: LINKER_SCRIPT,
        position: 0,
        ram_line: 0,
    };
    assert_eq!(parser.find_ram_in_linker_script(), None);
}

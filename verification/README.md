# sdmmc-protocol

SD/MMC protocol building blocks in Rust, with contracts that Verus proves.

- `cmd`, `response`, `crc`, `bits`: commands and their SPI frames, responses and
  registers of the card, CRC-7.
- `spi`: the driver of a card on an SPI bus, over the `SpiTransport` trait.
  `traffic` says which bytes pass for each transaction, `replay` that the bytes
  settle what it returns, `laws` what holds of every transaction.
- `sdio`: the driver of a card behind a host controller, over the `SdioHost`
  trait. `calls` says what each transaction asks of the host.
- `sdhci`, `adma`, `clock`, `registers`: the driver of an SDHCI v3.x controller
  and its ADMA2 data path. Each operation is a `program`: a list of register
  operations, run by a `Task` that names one register access after the other and
  is told its outcome.
- `dwmmc`: what the driver of a DesignWare controller decides.
- `sink`: where the blocks of a multi-block read go.
- `error`: what can go wrong.

The library makes no register access, sleeps nowhere and calls no HAL. `app/`
does: it runs tasks on memory-mapped registers, waits between the steps of an
initialization and adapts `embedded-hal`.

```rust
use sdmmc_protocol::spi::SpiSdmmc;

let mut card = SpiSdmmc::new(transport);
let info = card.init()?;
let mut block = [0u8; 512];
card.read_block(0, &mut block)?;
```

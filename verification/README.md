# nft-set-elem

Manages nftables set elements over nfnetlink, without libmnl or libnftnl, and
without running `nft`.

The library, under `src/`, is verified with Verus. It builds the requests, reads
the replies, reduces the boundary elements of interval sets to blocks and ranges,
tests membership, and converts elements, addresses and durations from and to
text. It does no input or output.

The program `nftse`, under `app/`, is ordinary Rust around it: it owns the
netlink socket, the clock and the command line.

```text
nftse list <family> <table> <set>
nftse add <family> <table> <set> <element> [--timeout <dur>]
nftse delete <family> <table> <set> <element>
nftse replace <family> <table> <set> <del_elem> <add_elem> [--timeout <dur>]
```

`nftse <family> <table> <set>` is short for `nftse list`. All of them need root or
`CAP_NET_ADMIN`, and Linux.

## Layout

| Module | Contents |
|---|---|
| `nl`, `fmt` | The public functions and types in one place |
| `elem` | Set elements |
| `intervals`, `sort`, `cidr` | Interval reduction, membership, CIDR recovery |
| `be`, `order`, `text` | Numbers as bytes and as text |
| `addr`, `duration` | Addresses and durations as text |
| `wire`, `attr` | Messages and attributes: building and reading |
| `request`, `dump`, `reply` | Requests; what the kernel tells of a set; replies |
| `roundtrip` | Proofs that what is written is read back |
| `cli` | Arguments and output of `nftse` |

## What is trusted

`order::u16_to_ne_bytes` calls `u16::to_ne_bytes`, from which the library learns
the byte order of the host. Everything else in `src/` is proved.

# yank

`yank` replicates the clipboard, and a bounded history of it, across the
machines you own. They pair once, then hold direct connections to each other,
with no server in between. What they replicate is a bounded, append-only log of
events, keyed by the machine that wrote them; the clipboard is what folding that
log comes to.

The library in `src/` decides, and is verified with
[Verus](https://github.com/verus-lang/verus): every function states what it
returns, and Verus proves that it does. Only what is drawn at random or read off
the clock states nothing, as nothing holds of every outcome; what is done with
it stands in a function that takes it. The program in `app/` acts: it holds the
sockets, the files, the threads and the compositor, hands the library what they
say, and does what it answers.

## The library

| module        | what it holds                                                    |
|---------------|------------------------------------------------------------------|
| `log`         | the replicated log: names, clocks, watermarks, caps, its files   |
| `clip`        | the clipboard: events, the state machine, types, previews, seats |
| `files`       | copied files: manifests, the spool, transfers, URI lists         |
| `config`      | directories, settings, the identity key, the mesh state          |
| `net`         | framing, gossip, tickets, the pairing exchange                   |
| `daemon`      | the clipboard service, peers, pairing, the control socket        |
| `cli`         | what each command asks for and prints                            |
| `ordmap`, `word`, `text`, `encoding`, `time` | what the others are built from    |

What is promised of the library as a whole stands next to the functions it is
about, as public proof functions: that machines which heard the same entries
agree on the clipboard whatever the order (`clip::laws::machines_converge`), that
a forgotten entry stays forgotten, that a secret never reaches the disk, that a
ticket is redeemed once, and so on.

## What is trusted

The library calls other crates through small wrappers whose contracts Verus
takes as given; each says in its comment what it claims of the function behind
it. They are the encodings (`postcard`, `data-encoding`, `percent-encoding`,
`toml`), hashing (`blake3`), keys (`iroh`), how people write sizes and durations
(`bytesize`, `humantime`), styling (`anstyle`), secrets (`subtle`, `zeroize`),
randomness (`rand`) and the clock.

# cmafly

Indexes progressive MP4 files offline and assembles CMAF / HLS from them on
demand. An archive is an `.mp4` file and the `.idx` file built from it; playlist,
init segment and media segments are answered from the two without transcoding.

The library in `src/` is written in [Verus](https://github.com/verus-lang/verus):
every function is proved against its contract, except those marked
`#[verifier::external_body]`. Each of these only calls another crate or the
standard library (`byteorder`, `blake3`, `lru`, UTF-8 decoding, number parsing,
text formatting) and hands on what it gets; its doc comment says what is taken on trust of that
call. The outside types declared beside them are taken on trust
too.

| Module     | What it holds                                                        |
|------------|----------------------------------------------------------------------|
| `demux`    | box scanner, `moov` parser, sample-table walker                      |
| `segment`  | nominal duration, splitter that cuts both tracks at sync samples     |
| `fmp4`     | box framing, init-segment and media-segment writers                  |
| `playlist` | media playlist                                                       |
| `index`    | rows, byte image, view and builder of the `.idx` format              |
| `serve`    | configuration, registry of open archives, replies of the HTTP origin |
| `indexer`  | decisions of the offline indexer                                     |

Proof functions whose names start with `law_` state what holds across
functions: that an index reads back as it was written, that segments partition
both tracks and start at sync samples, that data offsets lead to the very bytes
of each sample, that every segment a playlist lists is served, that sample
groups which do not mark encryption are ignored.

Multi-byte fields of an `.idx` file are big-endian; the rows of the sample and
segment tables are little-endian. Opening an image copies its rows; where the
image lies in memory matters only to callers that ask for it
(`IndexView::open_at`).

`app/` is the program around the library: command line, files, memory maps and
the HTTP server.

    cmafly index --input a.mp4 --output a.idx --segment-duration 6.0
    cmafly serve --media-dir media --index-dir index --bind 127.0.0.1:8080

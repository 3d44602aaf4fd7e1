# libgnl

get_next_line: successive calls on a file descriptor return its lines one by
one, each with its newline, the last one possibly without; `None` (or a null
pointer) once there is no line left, for a negative descriptor, or after a
failed read.

- `src/lines.rs`: the model of a byte stream cut into lines (`lines_of`,
  `flatten`) and its laws.
- `src/reader.rs`: the buffer kept between calls as a state machine
  (`LineReader`, and `FdReaders`, one buffer per descriptor). A call asks it
  for a step, performs the reads it asks for and hands back each result. The
  law `lemma_stream_reassembles` states that the lines joined give back the
  stream, however the reads cut it.
- `src/get_next_line.rs`: buffer size, accepted descriptors, the bounded scan
  for the end of a line and the C string handed out.
- `src/get_next_line_utils.rs`: `ft_memcpy`, `ft_memset`, `ft_calloc`,
  `ft_strlcpy`, `index_of` on byte slices.
- `app/`: the reads (`libc::read`, `nix::unistd::read`), the storage kept
  between calls, the C entry point `get_next_line`, and C entry points for
  the helpers that turn pointers into slices.
